//! The language description consumed by the lexer and the parser: delimiter
//! pairs, ordered atoms, and the lexer-time variable classification rules.

use vstd::prelude::*;

use crate::atom::{Atom, AtomKind, SpecAtom, SpecKind, VariableRole};
use crate::macros::Macro;
use crate::scoping::{BindingPass, NoOpBindingPass, NoOpReferencePass, ReferencePass, SimpleBindingPass, SimpleReferencePass};
use crate::token::{str_eq, SpecToken, Token};

verus! {

/// A matched open/close bracket pair defining nesting, compared by its kind
/// tag for matching purposes.
#[derive(Debug, Clone, Copy, PartialEq, Eq)]
pub struct Delimiter {
    pub kind: &'static str,
    pub open: &'static str,
    pub close: &'static str,
}

/// The mathematical value of a [`Delimiter`].
pub struct SpecDelimiter {
    pub kind: Seq<char>,
    pub open: Seq<char>,
    pub close: Seq<char>,
}

impl View for Delimiter {
    type V = SpecDelimiter;

    open spec fn view(&self) -> SpecDelimiter {
        SpecDelimiter { kind: self.kind@, open: self.open@, close: self.close@ }
    }
}

impl DeepView for Delimiter {
    type V = SpecDelimiter;

    open spec fn deep_view(&self) -> SpecDelimiter {
        self.view()
    }
}

/// What a list of strings contains, character for character.
pub open spec fn contains_text(kws: Seq<Seq<char>>, s: Seq<char>) -> bool {
    exists|i: int| 0 <= i < kws.len() && kws[i] == s
}

fn list_contains(kws: &Vec<String>, s: &str) -> (r: bool)
    ensures
        r == contains_text(kws.deep_view(), s@),
{
    let mut i: usize = 0;
    while i < kws.len()
        invariant
            i <= kws@.len(),
            forall|j: int| 0 <= j < i ==> kws.deep_view()[j] != s@,
        decreases kws@.len() - i,
    {
        if str_eq(kws[i].as_str(), s) {
            proof {
                assert(kws.deep_view()[i as int] == s@);
            }
            return true;
        }
        i = i + 1;
    }
    false
}

/// Lexer-time classification of identifiers, a heuristic for highlighting:
/// an identifier that is a declared binding keyword becomes a keyword token,
/// an identifier right after a binding keyword is a binding, and any other
/// identifier is a reference. The authoritative resolution is the scope
/// stack, not this rule.
#[derive(Debug)]
pub struct VariableRules {
    binding_keywords: Vec<String>,
}

/// What [`VariableRules::classify`] returns, over the views of the previous
/// and current tokens.
pub open spec fn spec_classify(
    kws: Seq<Seq<char>>,
    prev: Option<SpecToken>,
    curr: SpecToken,
) -> SpecKind {
    if curr.kind is Identifier {
        if contains_text(kws, curr.text) {
            SpecKind::Keyword(curr.text)
        } else if prev is Some && contains_text(kws, prev->0.text) {
            SpecKind::Identifier(VariableRole::Binding)
        } else {
            SpecKind::Identifier(VariableRole::Reference)
        }
    } else {
        curr.kind
    }
}

impl VariableRules {
    /// The declared binding keywords.
    pub closed spec fn spec_keywords(&self) -> Seq<Seq<char>> {
        self.binding_keywords.deep_view()
    }

    /// Rules with no binding keywords: every identifier is a reference.
    pub fn new() -> (r: Self)
        ensures
            r.spec_keywords() == Seq::<Seq<char>>::empty(),
    {
        let v: Vec<String> = Vec::new();
        proof {
            assert(v.deep_view() =~= Seq::<Seq<char>>::empty());
        }
        Self { binding_keywords: v }
    }

    /// Adds a binding keyword (such as `let`).
    pub fn add_binding_keyword(&mut self, keyword: &str)
        ensures
            final(self).spec_keywords() == old(self).spec_keywords().push(keyword@),
    {
        let ghost before = self.binding_keywords.deep_view();
        self.binding_keywords.push(keyword.to_owned());
        proof {
            assert(self.binding_keywords.deep_view() =~= before.push(keyword@));
        }
    }

    /// The lexer-time role of `curr` given the previous non-whitespace
    /// token.
    pub fn classify(&self, prev: Option<&Token>, curr: &Token) -> (r: AtomKind)
        ensures
            r@ == spec_classify(
                self.spec_keywords(),
                match prev {
                    Some(p) => Some(p@),
                    None => None,
                },
                curr@,
            ),
    {
        if !curr.kind.is_identifier() {
            return curr.kind.duplicate();
        }
        if list_contains(&self.binding_keywords, curr.text.as_str()) {
            return AtomKind::Keyword(curr.text.clone());
        }
        match prev {
            Some(p) => {
                if list_contains(&self.binding_keywords, p.text.as_str()) {
                    AtomKind::Identifier(VariableRole::Binding)
                } else {
                    AtomKind::Identifier(VariableRole::Reference)
                }
            },
            None => AtomKind::Identifier(VariableRole::Reference),
        }
    }
}

/// A language description: an ordered list of atoms (first match wins,
/// subject to each atom's own rule), the delimiter pairs that nest, and the
/// lexer-time variable classification rules.
#[derive(Debug)]
pub struct Language {
    pub atoms: Vec<Atom>,
    pub delimiters: Vec<Delimiter>,
    pub macros: Vec<Macro>,
    pub variable_rules: VariableRules,
    pub binding_pass: BindingPass,
    pub reference_pass: ReferencePass,
}

impl Language {
    /// A language with no atoms, no delimiters and no rules: every input
    /// character is unknown to it.
    pub fn new() -> (r: Self)
        ensures
            r.atoms@.len() == 0,
            r.delimiters@.len() == 0,
            r.macros@.len() == 0,
            r.variable_rules.spec_keywords().len() == 0,
    {
        Self {
            atoms: Vec::new(),
            delimiters: Vec::new(),
            macros: Vec::new(),
            variable_rules: VariableRules::new(),
            binding_pass: BindingPass::NoOp(NoOpBindingPass),
            reference_pass: ReferencePass::NoOp(NoOpReferencePass),
        }
    }

    /// The pass that identifies variable bindings.
    pub fn binding_pass(&self) -> (r: &BindingPass)
        ensures
            r == &self.binding_pass,
    {
        &self.binding_pass
    }

    /// The pass that resolves variable references.
    pub fn reference_pass(&self) -> (r: &ReferencePass)
        ensures
            r == &self.reference_pass,
    {
        &self.reference_pass
    }

    /// The completion entry point: lexes the text and suggests every
    /// variable visible at the cursor offset, each erasing the part of the
    /// identifier already typed before the cursor.
    pub fn complete(&self, input: &str, offset: usize) -> (r: Vec<
        crate::shape::CompletionItem,
    >)
        ensures
            ({
                let forest = crate::lexer::spec_lex(*self, input@);
                r.deep_view() == crate::completion::spec_completion_items(
                    crate::scoping::spec_collected_names(self.binding_pass, forest, offset),
                    crate::completion::spec_delete_backwards(forest, offset),
                )
            }),
    {
        let tokens = crate::lexer::lex(input, self);
        crate::completion::find_completions(&tokens, self, offset)
    }

    /// The ordered atom matchers.
    pub fn atoms(&self) -> (r: &Vec<Atom>)
        ensures
            r == &self.atoms,
    {
        &self.atoms
    }

    /// The delimiter pairs.
    pub fn delimiters(&self) -> (r: &Vec<Delimiter>)
        ensures
            r == &self.delimiters,
    {
        &self.delimiters
    }

    /// The lexer-time variable classification rules.
    pub fn variable_rules(&self) -> (r: &VariableRules)
        ensures
            r == &self.variable_rules,
    {
        &self.variable_rules
    }

    /// The declared macros, in declaration order.
    pub fn macros(&self) -> (r: &Vec<Macro>)
        ensures
            r == &self.macros,
    {
        &self.macros
    }

    /// Appends a macro.
    pub fn with_macro(self, mac: Macro) -> (r: Self)
        ensures
            r.macros@ == self.macros@.push(mac),
            r.atoms == self.atoms,
            r.delimiters == self.delimiters,
            r.variable_rules == self.variable_rules,
    {
        let mut macros = self.macros;
        macros.push(mac);
        Self { macros, ..self }
    }

    /// Appends an atom to the matcher list.
    pub fn with_atom(self, atom: Atom) -> (r: Self)
        ensures
            r.atoms@ == self.atoms@.push(atom),
            r.delimiters == self.delimiters,
            r.macros == self.macros,
            r.variable_rules == self.variable_rules,
    {
        let mut atoms = self.atoms;
        atoms.push(atom);
        Self { atoms, ..self }
    }

    /// Appends a delimiter pair.
    pub fn with_delimiter(self, delimiter: Delimiter) -> (r: Self)
        ensures
            r.delimiters@ == self.delimiters@.push(delimiter),
            r.atoms == self.atoms,
            r.macros == self.macros,
            r.variable_rules == self.variable_rules,
    {
        let mut delimiters = self.delimiters;
        delimiters.push(delimiter);
        Self { delimiters, ..self }
    }

    /// Declares `keyword` as a binding keyword: identifiers spelt like it
    /// become keyword tokens, and an identifier right after it becomes a
    /// binding.
    pub fn with_keyword_binding(self, keyword: &str) -> (r: Self)
        ensures
            r.variable_rules.spec_keywords() == self.variable_rules.spec_keywords().push(keyword@),
            r.binding_pass is Simple && r.binding_pass->Simple_0.spec_keyword() == keyword@,
            r.reference_pass is Simple,
            r.atoms == self.atoms,
            r.delimiters == self.delimiters,
            r.macros == self.macros,
    {
        let mut variable_rules = self.variable_rules;
        variable_rules.add_binding_keyword(keyword);
        Self {
            variable_rules,
            binding_pass: BindingPass::Simple(SimpleBindingPass::new(keyword)),
            reference_pass: ReferencePass::Simple(SimpleReferencePass),
            ..self
        }
    }

    /// Inserts an atom for `symbol` right after the whitespace atom, so
    /// that it takes precedence over broader matchers such as identifiers.
    pub fn with_symbol(self, symbol: &str) -> (r: Self)
        requires
            self.atoms@.len() >= 1,
        ensures
            r.atoms@.len() == self.atoms@.len() + 1,
            r.atoms@[1].deep_view() == SpecAtom::Symbol(seq![symbol@]),
            forall|i: int| 0 <= i < 1 ==> r.atoms@[i] == self.atoms@[i],
            forall|i: int|
                2 <= i < r.atoms@.len() ==> r.atoms@[i] == self.atoms@[i - 1],
            r.delimiters == self.delimiters,
            r.macros == self.macros,
            r.variable_rules == self.variable_rules,
    {
        let mut atoms = self.atoms;
        let syms: [&str; 1] = [symbol];
        let atom = Atom::Symbol(crate::mock::SymbolAtom::new(&syms));
        proof {
            assert(syms@.len() == 1);
            assert(syms.deep_view() =~= seq![symbol@]);
        }
        atoms.insert(1, atom);
        Self { atoms, ..self }
    }
}

} // verus!
