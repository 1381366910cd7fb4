//! Macros: named, precedence-aware grammar extensions. A macro matches its
//! argument signature (a shape) and expands to a new tree, either at the
//! head of an expression (prefix) or between two expressions (infix
//! operator, with a binding power and an associativity).

use vstd::prelude::*;

use crate::shape::{Associativity, Precedence, Shape};
use crate::token::{tree_view, SpecTree, TokenTree};

verus! {

/// Context handed to a macro during expansion. The expansion rules need no
/// context today; the parameter keeps the call shape stable for when they
/// do.
#[derive(Debug)]
pub struct MacroContext;

/// What a macro expansion produced: a tree, or a message saying why the
/// expansion refused its input.
#[derive(Debug)]
pub enum ExpansionResult {
    Expanded(TokenTree),
    Error(String),
}

/// The closed set of expansion behaviours a macro can have.
#[derive(Debug, Clone, Copy, PartialEq, Eq, Structural)]
pub enum MacroExpansion {
    /// Pair the left-hand side with the matched arguments in a group:
    /// the natural shape for a binary operator. Refuses to expand without
    /// a left-hand side.
    PairWithLeft,
    /// Hand the matched arguments back unchanged.
    ArgsOnly,
}

/// What an expansion behaviour produces for given arguments.
pub open spec fn spec_expand(
    e: MacroExpansion,
    args: SpecTree,
    lhs: Option<SpecTree>,
) -> Result<SpecTree, Seq<char>> {
    match e {
        MacroExpansion::PairWithLeft => match lhs {
            Some(l) => Ok(SpecTree::Group(seq![l, args])),
            None => Err("macro needs a left-hand side"@),
        },
        MacroExpansion::ArgsOnly => Ok(args),
    }
}

/// A named, precedence-aware grammar extension: its argument signature is
/// matched as a shape, and its expansion builds the result tree. An
/// operator macro applies between two expressions; any other macro applies
/// at the head of one.
#[derive(Debug)]
pub struct Macro {
    pub name: String,
    pub signature: Shape,
    pub expansion: MacroExpansion,
    pub operator: bool,
    pub precedence: Precedence,
    pub associativity: Associativity,
}

impl Macro {
    /// A prefix macro: applies at the head of an expression.
    pub fn prefix(name: &str, signature: Shape, expansion: MacroExpansion) -> (r: Self)
        ensures
            r.name@ == name@,
            r.signature == signature,
            r.expansion == expansion,
            !r.operator,
            r.precedence == Precedence(0),
            r.associativity == Associativity::Left,
    {
        Self {
            name: name.to_owned(),
            signature,
            expansion,
            operator: false,
            precedence: Precedence(0),
            associativity: Associativity::Left,
        }
    }

    /// An infix operator macro with the given binding power and
    /// associativity.
    pub fn infix(
        name: &str,
        signature: Shape,
        expansion: MacroExpansion,
        precedence: Precedence,
        associativity: Associativity,
    ) -> (r: Self)
        ensures
            r.name@ == name@,
            r.signature == signature,
            r.expansion == expansion,
            r.operator,
            r.precedence == precedence,
            r.associativity == associativity,
    {
        Self {
            name: name.to_owned(),
            signature,
            expansion,
            operator: true,
            precedence,
            associativity,
        }
    }

    pub fn name(&self) -> (r: &str)
        ensures
            r@ == self.name@,
    {
        self.name.as_str()
    }

    pub fn signature(&self) -> (r: &Shape)
        ensures
            r == &self.signature,
    {
        &self.signature
    }

    pub fn is_operator(&self) -> (r: bool)
        ensures
            r == self.operator,
    {
        self.operator
    }

    pub fn precedence(&self) -> (r: Precedence)
        ensures
            r == self.precedence,
    {
        self.precedence
    }

    pub fn associativity(&self) -> (r: Associativity)
        ensures
            r == self.associativity,
    {
        self.associativity
    }

    /// Expands the macro: `args` is the tree its signature matched, `lhs`
    /// the accumulated left-hand side when it is applied as an operator.
    pub fn expand(&self, args: TokenTree, lhs: Option<TokenTree>, _context: &MacroContext) -> (r:
        ExpansionResult)
        ensures
            match spec_expand(
                self.expansion,
                tree_view(args),
                match lhs {
                    Some(l) => Some(tree_view(l)),
                    None => None,
                },
            ) {
                Ok(t) => r is Expanded && tree_view(r->Expanded_0) == t,
                Err(m) => r is Error && r->Error_0@ == m,
            },
    {
        match self.expansion {
            MacroExpansion::PairWithLeft => match lhs {
                Some(l) => {
                    let ghost lv = tree_view(l);
                    let ghost av = tree_view(args);
                    let pair = TokenTree::Group(vec![l, args]);
                    proof {
                        crate::token::lemma_trees_view_index(pair->Group_0@);
                        assert(crate::token::trees_view(pair->Group_0@) =~= seq![lv, av]);
                    }
                    ExpansionResult::Expanded(pair)
                },
                None => ExpansionResult::Error("macro needs a left-hand side".to_owned()),
            },
            MacroExpansion::ArgsOnly => ExpansionResult::Expanded(args),
        }
    }
}

} // verus!
