//! The grammar-matching algebra: composable shapes that consume a prefix of
//! a token-tree stream and either produce a result tree or fail with a
//! diagnostic, and that answer completion queries with the same traversal.
//!
//! The exact behaviour of matching is pinned down by [`spec_match`]; every
//! executable entry point is proved equivalent to it.

use vstd::prelude::*;

use crate::atom::{AtomKind, SpecKind};
use crate::language::{Delimiter, Language, SpecDelimiter};
use crate::macros::{spec_expand, Macro};
use crate::token::{
    forest_size, lemma_forest_size_skip, lemma_tree_size_pos, lemma_trees_view_subrange, str_eq,
    tree_size, tree_view, trees_view, SourceLocation, SpecToken, SpecTree, Token, TokenStream,
    TokenTree,
};

verus! {

/// A diagnostic from a failed match: where it failed and why.
#[derive(Debug, PartialEq)]
pub struct ParseError {
    pub span: SourceLocation,
    pub message: String,
}

impl ParseError {
    pub fn new(span: SourceLocation, message: String) -> (r: Self)
        ensures
            r.span == span,
            r.message == message,
    {
        Self { span, message }
    }
}

/// A failed match: the diagnostic, and the stream position at which
/// matching gave up, from which recovery can skip forward.
#[derive(Debug)]
pub struct MatchFailure<'a> {
    pub error: ParseError,
    pub rest: TokenStream<'a>,
}

/// The result of matching a shape: the produced tree and the remaining
/// stream, or a failure.
pub type MatchResult<'a> = Result<(TokenTree, TokenStream<'a>), MatchFailure<'a>>;

/// The class of a completion suggestion.
#[derive(Debug, Clone, Copy, PartialEq, Eq, Structural)]
pub enum CompletionKind {
    Keyword,
    Variable,
    Function,
    Field,
    Operator,
    Type,
    Other,
}

/// One completion suggestion: the label to insert, its class, an optional
/// detail, and how many already-typed characters to erase first.
#[derive(Debug, Clone, PartialEq)]
pub struct CompletionItem {
    pub label: String,
    pub kind: CompletionKind,
    pub detail: Option<String>,
    pub delete_backwards: usize,
}

/// The mathematical value of a [`CompletionItem`].
pub struct SpecCompletion {
    pub label: Seq<char>,
    pub kind: CompletionKind,
    pub detail: Option<Seq<char>>,
    pub delete_backwards: usize,
}

impl View for CompletionItem {
    type V = SpecCompletion;

    open spec fn view(&self) -> SpecCompletion {
        SpecCompletion {
            label: self.label@,
            kind: self.kind,
            detail: match self.detail {
                Some(d) => Some(d@),
                None => None,
            },
            delete_backwards: self.delete_backwards,
        }
    }
}

impl DeepView for CompletionItem {
    type V = SpecCompletion;

    open spec fn deep_view(&self) -> SpecCompletion {
        self.view()
    }
}

/// Whether two shapes may, must, or must not sit adjacent in the input.
#[derive(Debug, Clone, Copy, PartialEq, Eq, Structural)]
pub enum AdjacencyConstraint {
    Unconstrained,
    Required,
    Forbidden,
}

/// How an operator of a given precedence groups with itself.
#[derive(Debug, Clone, Copy, PartialEq, Eq, Structural)]
pub enum Associativity {
    Left,
    Right,
    NonAssoc,
}

/// An operator's binding power.
#[derive(Debug, Clone, Copy, PartialEq, Eq, PartialOrd, Ord, Structural)]
pub struct Precedence(pub u32);

/// How a single tree is matched: by token kind, by exact token text, or by
/// delimiter kind.
#[derive(Debug)]
pub enum Matcher {
    Kind(AtomKind),
    Text(String),
    Delimiter(Delimiter),
}

impl Matcher {
    /// A matcher for tokens of the given kind.
    pub fn kind(kind: AtomKind) -> (r: Matcher)
        ensures
            r == Matcher::Kind(kind),
    {
        Matcher::Kind(kind)
    }

    /// A matcher for a token with exactly the given text.
    pub fn text(text: &str) -> (r: Matcher)
        ensures
            r is Text && r->Text_0@ == text@,
    {
        Matcher::Text(text.to_owned())
    }

    /// A matcher for a delimited group of the given delimiter kind.
    pub fn delimiter(delimiter: Delimiter) -> (r: Matcher)
        ensures
            r == Matcher::Delimiter(delimiter),
    {
        Matcher::Delimiter(delimiter)
    }
}

/// Whether a matcher accepts a tree: kind matchers compare token kinds,
/// text matchers compare token text, delimiter matchers compare the
/// delimiter's kind tag.
pub open spec fn spec_matches(m: Matcher, t: SpecTree) -> bool {
    match m {
        Matcher::Kind(k) => t is Token && t->Token_0.kind == k@,
        Matcher::Text(s) => t is Token && t->Token_0.text == s@,
        Matcher::Delimiter(d) => t is Delimited && t->Delimited_0.kind == d@.kind,
    }
}

/// What a matcher reports it expected, for diagnostics.
pub open spec fn spec_matcher_describe(m: Matcher) -> Seq<char> {
    match m {
        Matcher::Kind(k) => crate::atom::spec_describe(k@),
        Matcher::Text(s) => "'"@ + s@ + "'"@,
        Matcher::Delimiter(d) => "Delimiter '"@ + d@.kind + "'"@,
    }
}

/// The suggestions a matcher offers against a token the cursor sits in: a
/// text matcher offers its own text when the token already typed is a
/// prefix of it, erasing that prefix; kind and delimiter matchers have no
/// concrete value to offer.
pub open spec fn spec_suggest(m: Matcher, tok: SpecToken) -> Seq<SpecCompletion> {
    match m {
        Matcher::Text(s) => if crate::token::spec_starts_with(s@, tok.text) {
            seq![
                SpecCompletion {
                    label: s@,
                    kind: CompletionKind::Keyword,
                    detail: None,
                    delete_backwards: tok.text.len() as usize,
                },
            ]
        } else {
            Seq::empty()
        },
        _ => Seq::empty(),
    }
}

/// The suggestions a matcher offers at a fresh position: a text matcher
/// offers its text as a pure insertion.
pub open spec fn spec_suggest_insertion(m: Matcher) -> Seq<SpecCompletion> {
    match m {
        Matcher::Text(s) => seq![
            SpecCompletion {
                label: s@,
                kind: CompletionKind::Keyword,
                detail: None,
                delete_backwards: 0,
            },
        ],
        _ => Seq::empty(),
    }
}

impl Matcher {
    /// Whether this matcher accepts the tree.
    pub fn matches(&self, tree: &TokenTree) -> (r: bool)
        ensures
            r == spec_matches_ref(self, tree_view(*tree)),
    {
        match self {
            Matcher::Kind(k) => match tree {
                TokenTree::Token(t) => t.kind.same_kind(k),
                _ => false,
            },
            Matcher::Text(s) => match tree {
                TokenTree::Token(t) => str_eq(t.text.as_str(), s.as_str()),
                _ => false,
            },
            Matcher::Delimiter(d) => match tree {
                TokenTree::Delimited(d2, _, _, _) => str_eq(d2.kind, d.kind),
                _ => false,
            },
        }
    }

    /// What this matcher expected, for diagnostics.
    pub fn describe(&self) -> (r: String)
        ensures
            r@ == spec_matcher_describe_ref(self),
    {
        match self {
            Matcher::Kind(k) => k.describe(),
            Matcher::Text(s) => {
                let mut out = "'".to_owned();
                out.append(s.as_str());
                out.append("'");
                out
            },
            Matcher::Delimiter(d) => {
                let mut out = "Delimiter '".to_owned();
                out.append(d.kind);
                out.append("'");
                out
            },
        }
    }

    /// The suggestions this matcher offers against the token the cursor
    /// sits in.
    pub fn suggest(&self, current_token: &Token) -> (r: Vec<CompletionItem>)
        ensures
            r.deep_view() == spec_suggest_ref(self, current_token@),
    {
        match self {
            Matcher::Text(s) => {
                if crate::token::str_starts_with(s.as_str(), current_token.text.as_str()) {
                    let item = CompletionItem {
                        label: s.clone(),
                        kind: CompletionKind::Keyword,
                        detail: None,
                        delete_backwards: current_token.text.as_str().unicode_len(),
                    };
                    let v = vec![item];
                    proof {
                        assert(v.deep_view() =~= spec_suggest_ref(self, current_token@));
                    }
                    v
                } else {
                    let v: Vec<CompletionItem> = Vec::new();
                    proof {
                        assert(v.deep_view() =~= Seq::<SpecCompletion>::empty());
                    }
                    v
                }
            },
            _ => {
                let v: Vec<CompletionItem> = Vec::new();
                proof {
                    assert(v.deep_view() =~= Seq::<SpecCompletion>::empty());
                }
                v
            },
        }
    }

    /// The suggestions this matcher offers at a fresh position.
    pub fn suggest_insertion(&self) -> (r: Vec<CompletionItem>)
        ensures
            r.deep_view() == spec_suggest_insertion_ref(self),
    {
        match self {
            Matcher::Text(s) => {
                let item = CompletionItem {
                    label: s.clone(),
                    kind: CompletionKind::Keyword,
                    detail: None,
                    delete_backwards: 0,
                };
                let v = vec![item];
                proof {
                    assert(v.deep_view() =~= spec_suggest_insertion_ref(self));
                }
                v
            },
            _ => {
                let v: Vec<CompletionItem> = Vec::new();
                proof {
                    assert(v.deep_view() =~= Seq::<SpecCompletion>::empty());
                }
                v
            },
        }
    }
}

/// `spec_matches` for a matcher behind a reference.
pub open spec fn spec_matches_ref(m: &Matcher, t: SpecTree) -> bool {
    spec_matches(*m, t)
}

/// `spec_matcher_describe` for a matcher behind a reference.
pub open spec fn spec_matcher_describe_ref(m: &Matcher) -> Seq<char> {
    spec_matcher_describe(*m)
}

/// `spec_suggest` for a matcher behind a reference.
pub open spec fn spec_suggest_ref(m: &Matcher, tok: SpecToken) -> Seq<SpecCompletion> {
    spec_suggest(*m, tok)
}

/// `spec_suggest_insertion` for a matcher behind a reference.
pub open spec fn spec_suggest_insertion_ref(m: &Matcher) -> Seq<SpecCompletion> {
    spec_suggest_insertion(*m)
}

/// A composable grammar rule matching a prefix of a token stream: the
/// closed algebra of primitive shapes.
#[derive(Debug)]
pub enum Shape {
    /// Matches a single tree with a matcher, skipping leading whitespace.
    Term(Matcher),
    /// Matches the first shape, then the second on the remainder.
    Sequence(Box<Shape>, Box<Shape>),
    /// Ordered alternation: the second shape is tried against the original
    /// stream only when the first fails.
    Choice(Box<Shape>, Box<Shape>),
    /// Matches a shape zero or more times.
    Rep(Box<Shape>),
    /// Matches a delimited group of the given kind and matches the inner
    /// shape against the group's whole content.
    Enter(Delimiter, Box<Shape>),
    /// Like `Sequence`, but fails when whitespace separates the two parts.
    Adjacent(Box<Shape>, Box<Shape>),
    /// Always succeeds, consuming nothing.
    Empty,
    /// Succeeds only at the end of the stream (modulo whitespace).
    End,
    /// Delegates to the ambient expression parser with a minimum
    /// precedence.
    Expr(Precedence),
    /// Tries a shape; on failure, skips to a terminator and yields an
    /// error node instead of failing.
    Recover(Box<Shape>, Matcher),
}

/// The number of nodes in a shape: a termination measure.
pub open spec fn shape_size(s: Shape) -> nat
    decreases s,
{
    match s {
        Shape::Term(_) => 1,
        Shape::Sequence(a, b) => 1 + shape_size(*a) + shape_size(*b),
        Shape::Choice(a, b) => 1 + shape_size(*a) + shape_size(*b),
        Shape::Rep(a) => 1 + shape_size(*a),
        Shape::Enter(_, a) => 1 + shape_size(*a),
        Shape::Adjacent(a, b) => 1 + shape_size(*a) + shape_size(*b),
        Shape::Empty => 1,
        Shape::End => 1,
        Shape::Expr(_) => 1,
        Shape::Recover(a, _) => 1 + shape_size(*a),
    }
}

/// Matches a single token or tree using the provided matcher, skipping
/// leading whitespace.
pub fn term(matcher: Matcher) -> (r: Shape)
    ensures
        r == Shape::Term(matcher),
{
    Shape::Term(matcher)
}

/// Matches shape `a` followed by shape `b`; whitespace between them is
/// skipped by `b`'s own leading skip.
pub fn seq(a: Shape, b: Shape) -> (r: Shape)
    ensures
        r == Shape::Sequence(Box::new(a), Box::new(b)),
{
    Shape::Sequence(Box::new(a), Box::new(b))
}

/// Ordered choice: tries `a`; only on its failure tries `b` against the
/// original stream.
pub fn choice(a: Shape, b: Shape) -> (r: Shape)
    ensures
        r == Shape::Choice(Box::new(a), Box::new(b)),
{
    Shape::Choice(Box::new(a), Box::new(b))
}

/// Matches `a` zero or more times; a repetition that consumes nothing is
/// applied at most once.
pub fn rep(a: Shape) -> (r: Shape)
    ensures
        r == Shape::Rep(Box::new(a)),
{
    Shape::Rep(Box::new(a))
}

/// Matches a delimited group of `delimiter`'s kind, then matches `inner`
/// against the group's content, which it must consume entirely (modulo
/// trailing whitespace).
pub fn enter(delimiter: Delimiter, inner: Shape) -> (r: Shape)
    ensures
        r == Shape::Enter(delimiter, Box::new(inner)),
{
    Shape::Enter(delimiter, Box::new(inner))
}

/// Matches `a` then `b` with no intervening whitespace.
pub fn adjacent(a: Shape, b: Shape) -> (r: Shape)
    ensures
        r == Shape::Adjacent(Box::new(a), Box::new(b)),
{
    Shape::Adjacent(Box::new(a), Box::new(b))
}

/// Matches nothing and consumes nothing; always succeeds.
pub fn empty() -> (r: Shape)
    ensures
        r == Shape::Empty,
{
    Shape::Empty
}

/// Matches the end of the stream; fails when any non-whitespace tree
/// remains.
pub fn end() -> (r: Shape)
    ensures
        r == Shape::End,
{
    Shape::End
}

/// Matches an expression using the configured precedence rules and macros.
pub fn expr(precedence: Precedence) -> (r: Shape)
    ensures
        r == Shape::Expr(precedence),
{
    Shape::Expr(precedence)
}

/// Tries `shape`; on failure skips to `terminator` (left unconsumed) and
/// yields an error node counting the skipped tokens.
pub fn recover(shape: Shape, terminator: Matcher) -> (r: Shape)
    ensures
        r == Shape::Recover(Box::new(shape), terminator),
{
    Shape::Recover(Box::new(shape), terminator)
}

/// Matches `a` optionally: `choice(a, empty())`.
pub fn opt(a: Shape) -> (r: Shape)
    ensures
        r == Shape::Choice(Box::new(a), Box::new(Shape::Empty)),
{
    choice(a, empty())
}

/// Matches `item` separated by `sep`:
/// `seq(item, rep(seq(sep, item)))`.
pub fn separated(item: Shape, sep: Shape, item_again: Shape) -> (r: Shape)
    ensures
        r == Shape::Sequence(
            Box::new(item),
            Box::new(
                Shape::Rep(Box::new(Shape::Sequence(Box::new(sep), Box::new(item_again)))),
            ),
        ),
{
    seq(item, rep(seq(sep, item_again)))
}

/// The stream after its first `n` trees; all of it is gone when `n`
/// exceeds the length.
pub open spec fn skip_trees(ts: Seq<SpecTree>, n: nat) -> Seq<SpecTree> {
    if n <= ts.len() {
        ts.subrange(n as int, ts.len() as int)
    } else {
        Seq::empty()
    }
}

/// Skipping never grows a stream, and skipping at least one tree of a
/// non-empty stream strictly shrinks it.
pub proof fn lemma_skip_trees(ts: Seq<SpecTree>, n: nat)
    ensures
        forest_size(skip_trees(ts, n)) <= forest_size(ts),
        n > 0 && ts.len() > 0 ==> forest_size(skip_trees(ts, n)) < forest_size(ts),
{
    let m: int = if n <= ts.len() {
        n as int
    } else {
        ts.len() as int
    };
    lemma_forest_size_skip(ts, m);
    if n > ts.len() {
        assert(skip_trees(ts, n) =~= ts.subrange(m, ts.len() as int));
    }
    if n > 0 && ts.len() > 0 {
        assert(m >= 1);
    }
}

/// A whitespace token at the top of a stream.
pub open spec fn is_ws_tree(t: SpecTree) -> bool {
    t is Token && t->Token_0.kind is Whitespace
}

/// The number of leading whitespace tokens of a stream.
pub open spec fn ws_prefix(ts: Seq<SpecTree>) -> nat
    decreases ts,
{
    if ts.len() > 0 && is_ws_tree(ts[0]) {
        1 + ws_prefix(ts.drop_first())
    } else {
        0
    }
}

/// The leading whitespace run: all whitespace, ending at the stream's end
/// or at the first non-whitespace tree.
pub proof fn lemma_ws_prefix(ts: Seq<SpecTree>)
    ensures
        ws_prefix(ts) <= ts.len(),
        forall|j: int| 0 <= j < ws_prefix(ts) ==> is_ws_tree(ts[j]),
        ws_prefix(ts) < ts.len() ==> !is_ws_tree(ts[ws_prefix(ts) as int]),
    decreases ts,
{
    if ts.len() > 0 && is_ws_tree(ts[0]) {
        lemma_ws_prefix(ts.drop_first());
        let d = ts.drop_first();
        assert forall|j: int| 0 <= j < ws_prefix(ts) implies is_ws_tree(ts[j]) by {
            if j > 0 {
                assert(ts[j] == d[j - 1]);
            }
        }
        if ws_prefix(ts) < ts.len() {
            assert(ts[ws_prefix(ts) as int] == d[ws_prefix(d) as int]);
        }
    }
}

/// The span a tree offers for diagnostics: its own location for tokens and
/// delimited nodes, an empty span otherwise.
pub open spec fn spec_tree_span(t: SpecTree) -> SourceLocation {
    match t {
        SpecTree::Token(tok) => tok.location,
        SpecTree::Delimited(_, _, loc, _) => loc,
        _ => SourceLocation { offset: 0, len: 0 },
    }
}

/// What a diagnostic says was found in place of the expected construct.
pub open spec fn spec_tree_found(t: SpecTree) -> Seq<char> {
    match t {
        SpecTree::Token(tok) => crate::atom::spec_describe(tok.kind),
        SpecTree::Delimited(d, _, _, _) => "Delimiter "@ + d.kind,
        SpecTree::Group(_) => "Group"@,
        SpecTree::Error(_) => "Error"@,
        SpecTree::Empty => "Empty"@,
    }
}

/// The outcome of matching a shape against a stream: the produced tree and
/// the number of trees consumed, or the position, span and message of the
/// failure.
pub enum SpecMatch {
    Matched { result: SpecTree, consumed: nat },
    Failed { at: nat, span: SourceLocation, message: Seq<char> },
}

/// The macros a match context supplies: none for a context that refuses
/// expression parsing.
pub open spec fn ctx_macros<'a>(ctx: MatchContext<'a>) -> Option<Seq<Macro>> {
    match ctx {
        MatchContext::NoOp => None,
        MatchContext::Parse(lang) => Some(lang.macros@),
    }
}

/// The context a shape is matched in: either expression parsing is not
/// available, or a language supplies the macros for it.
#[derive(Clone, Copy)]
pub enum MatchContext<'a> {
    NoOp,
    Parse(&'a Language),
}

/// The first macro, in declaration order, that satisfies `p`.
pub open spec fn first_macro(ms: Seq<Macro>, p: spec_fn(Macro) -> bool) -> Option<Macro>
    decreases ms,
{
    if ms.len() == 0 {
        None
    } else if p(ms[0]) {
        Some(ms[0])
    } else {
        first_macro(ms.drop_first(), p)
    }
}

/// A scan that found nothing among the first `i` macros finds whatever the
/// rest holds.
pub proof fn lemma_first_macro_skip(ms: Seq<Macro>, p: spec_fn(Macro) -> bool, i: int)
    requires
        0 <= i <= ms.len(),
        forall|j: int| 0 <= j < i ==> !p(ms[j]),
    ensures
        first_macro(ms, p) == first_macro(ms.subrange(i, ms.len() as int), p),
    decreases i,
{
    if i > 0 {
        assert(!p(ms[0]));
        assert(ms.drop_first().subrange(i - 1, ms.drop_first().len() as int) =~= ms.subrange(
            i,
            ms.len() as int,
        ));
        lemma_first_macro_skip(ms.drop_first(), p, i - 1);
    } else {
        assert(ms.subrange(0, ms.len() as int) =~= ms);
    }
}

/// Whether a macro applies as a prefix macro for a token with this text.
pub open spec fn prefix_applicable(m: Macro, text: Seq<char>) -> bool {
    !m.operator && m.name@ == text
}

/// The prefix-macro test for a given token text, as a predicate.
pub open spec fn prefix_pred(text: Seq<char>) -> spec_fn(Macro) -> bool {
    |m: Macro| prefix_applicable(m, text)
}

/// Whether a macro applies as an infix operator here: it must be an
/// operator of this name whose precedence clears the floor — an operator
/// below the minimum precedence is skipped, and so is one exactly at it
/// that associates to the left, which is the standard precedence-climbing
/// tie-break for left associativity.
pub open spec fn infix_applicable(m: Macro, text: Seq<char>, min: Precedence) -> bool {
    &&& m.operator
    &&& m.name@ == text
    &&& !(m.precedence.0 < min.0)
    &&& !(m.precedence.0 == min.0 && m.associativity is Left)
}

/// The infix-operator test for a given token text and precedence floor, as
/// a predicate.
pub open spec fn infix_pred(text: Seq<char>, min: Precedence) -> spec_fn(Macro) -> bool {
    |m: Macro| infix_applicable(m, text, min)
}

/// What matching a shape against a stream produces, given the macros the
/// ambient context supplies. This is the whole algebra's semantics; every
/// executable matcher is proved equal to it.
pub open spec fn spec_match(shape: Shape, trees: Seq<SpecTree>, macros: Option<Seq<Macro>>) -> SpecMatch
    decreases forest_size(trees), 3int, shape_size(shape), 1int,
{
    match shape {
        Shape::Term(m) => {
            let k = ws_prefix(trees);
            if k < trees.len() {
                if spec_matches(m, trees[k as int]) {
                    SpecMatch::Matched { result: trees[k as int], consumed: k + 1 }
                } else {
                    SpecMatch::Failed {
                        at: k,
                        span: spec_tree_span(trees[k as int]),
                        message: "Expected "@ + spec_matcher_describe(m) + ", found "@
                            + spec_tree_found(trees[k as int]),
                    }
                }
            } else {
                SpecMatch::Failed {
                    at: k,
                    span: SourceLocation { offset: 0, len: 0 },
                    message: "Expected "@ + spec_matcher_describe(m) + ", found EOF"@,
                }
            }
        },
        Shape::Sequence(a, b) => match spec_match(*a, trees, macros) {
            SpecMatch::Matched { result: ra, consumed: n } => {
                proof {
                    lemma_skip_trees(trees, n);
                }
                match spec_match(*b, skip_trees(trees, n), macros) {
                    SpecMatch::Matched { result: rb, consumed: m } => SpecMatch::Matched {
                        result: SpecTree::Group(seq![ra, rb]),
                        consumed: n + m,
                    },
                    SpecMatch::Failed { at, span, message } => SpecMatch::Failed {
                        at: n + at,
                        span,
                        message,
                    },
                }
            },
            SpecMatch::Failed { at, span, message } => SpecMatch::Failed { at, span, message },
        },
        Shape::Choice(a, b) => match spec_match(*a, trees, macros) {
            SpecMatch::Matched { result, consumed } => SpecMatch::Matched { result, consumed },
            SpecMatch::Failed { .. } => spec_match(*b, trees, macros),
        },
        Shape::Rep(a) => {
            let (results, consumed) = spec_rep(*a, trees, macros);
            SpecMatch::Matched { result: SpecTree::Group(results), consumed }
        },
        Shape::Enter(d, inner) => {
            let k = ws_prefix(trees);
            if k < trees.len() && trees[k as int] is Delimited && trees[k as int]->Delimited_0.kind
                == d@.kind {
                let children = trees[k as int]->Delimited_1;
                let loc = trees[k as int]->Delimited_2;
                proof {
                    lemma_forest_size_skip(trees, k as int);
                    lemma_tree_size_pos(trees[k as int]);
                    assert(trees.subrange(k as int, trees.len() as int)[0] == trees[k as int]);
                    assert(forest_size(trees.subrange(k as int, trees.len() as int))
                        >= tree_size(trees[k as int]));
                }
                match spec_match(*inner, children, macros) {
                    SpecMatch::Matched { result, consumed } => {
                        let leftover = skip_trees(children, consumed);
                        if ws_prefix(leftover) == leftover.len() {
                            SpecMatch::Matched { result, consumed: k + 1 }
                        } else {
                            let t = leftover[ws_prefix(leftover) as int];
                            SpecMatch::Failed {
                                at: k,
                                span: match t {
                                    SpecTree::Token(tok) => tok.location,
                                    SpecTree::Delimited(_, _, l, _) => l,
                                    _ => loc,
                                },
                                message: "Expected end of group"@,
                            }
                        }
                    },
                    SpecMatch::Failed { at: _, span, message } => SpecMatch::Failed {
                        at: k,
                        span,
                        message,
                    },
                }
            } else {
                SpecMatch::Failed {
                    at: k,
                    span: if k < trees.len() && trees[k as int] is Token {
                        trees[k as int]->Token_0.location
                    } else {
                        SourceLocation { offset: 0, len: 0 }
                    },
                    message: "Expected Delimiter '"@ + d@.kind + "'"@,
                }
            }
        },
        Shape::Adjacent(a, b) => match spec_match(*a, trees, macros) {
            SpecMatch::Matched { result: ra, consumed: n } => {
                let rest = skip_trees(trees, n);
                if rest.len() > 0 && is_ws_tree(rest[0]) {
                    SpecMatch::Failed {
                        at: n,
                        span: rest[0]->Token_0.location,
                        message: "Unexpected whitespace"@,
                    }
                } else {
                    proof {
                        lemma_skip_trees(trees, n);
                    }
                    match spec_match(*b, rest, macros) {
                        SpecMatch::Matched { result: rb, consumed: m } => SpecMatch::Matched {
                            result: SpecTree::Group(seq![ra, rb]),
                            consumed: n + m,
                        },
                        SpecMatch::Failed { at, span, message } => SpecMatch::Failed {
                            at: n + at,
                            span,
                            message,
                        },
                    }
                }
            },
            SpecMatch::Failed { at, span, message } => SpecMatch::Failed { at, span, message },
        },
        Shape::Empty => SpecMatch::Matched { result: SpecTree::Empty, consumed: 0 },
        Shape::End => {
            let k = ws_prefix(trees);
            if k == trees.len() {
                SpecMatch::Matched { result: SpecTree::Empty, consumed: k }
            } else {
                SpecMatch::Failed {
                    at: k,
                    span: spec_tree_span(trees[k as int]),
                    message: "Expected end of input"@,
                }
            }
        },
        Shape::Expr(p) => match macros {
            None => SpecMatch::Failed {
                at: 0,
                span: if trees.len() > 0 && trees[0] is Token {
                    trees[0]->Token_0.location
                } else {
                    SourceLocation { offset: 0, len: 0 }
                },
                message: "Expression parsing not supported"@,
            },
            Some(ms) => spec_parse_expression(ms, trees, p),
        },
        Shape::Recover(inner, m) => match spec_match(*inner, trees, macros) {
            SpecMatch::Matched { result, consumed } => SpecMatch::Matched { result, consumed },
            SpecMatch::Failed { at, .. } => {
                let (count, stop) = spec_recover_scan(m, trees, at);
                SpecMatch::Matched {
                    result: SpecTree::Error(spec_recover_message(count)),
                    consumed: stop,
                }
            },
        },
    }
}

/// Zero or more matches of a shape: the results and the total consumption.
/// A match that consumes nothing is kept once and ends the repetition.
pub open spec fn spec_rep(shape: Shape, trees: Seq<SpecTree>, macros: Option<Seq<Macro>>) -> (
    Seq<SpecTree>,
    nat,
)
    decreases forest_size(trees), 3int, shape_size(shape), 2int,
{
    match spec_match(shape, trees, macros) {
        SpecMatch::Matched { result, consumed } => {
            if consumed == 0 || trees.len() == 0 {
                (seq![result], 0)
            } else {
                proof {
                    lemma_skip_trees(trees, consumed);
                }
                let (rs, m) = spec_rep(shape, skip_trees(trees, consumed), macros);
                (seq![result] + rs, consumed + m)
            }
        },
        SpecMatch::Failed { .. } => (Seq::empty(), 0),
    }
}

/// Where recovery stops and how many tokens it reports skipping, scanning
/// from position `i`: whitespace is passed over silently, the scan stops
/// right at the first tree the terminator matches (or at the end of the
/// stream), and every other tree passed over is counted.
pub open spec fn spec_recover_scan(m: Matcher, trees: Seq<SpecTree>, i: nat) -> (nat, nat)
    decreases trees.len() - i,
{
    if i >= trees.len() {
        (0, if i > trees.len() {
            trees.len()
        } else {
            i
        })
    } else if is_ws_tree(trees[i as int]) {
        spec_recover_scan(m, trees, i + 1)
    } else if spec_matches(m, trees[i as int]) {
        (0, i)
    } else {
        let (c, s) = spec_recover_scan(m, trees, i + 1);
        (c + 1, s)
    }
}

/// The message of a recovery error node: the number of skipped tokens in
/// decimal, or a bare notice when nothing was skipped.
pub open spec fn spec_recover_message(count: nat) -> Seq<char> {
    if count > 0 {
        "Parse error, skipped "@ + spec_decimal(count) + " tokens"@
    } else {
        "Parse error"@
    }
}

/// The decimal rendering of one digit.
pub open spec fn spec_digit(d: nat) -> Seq<char> {
    if d == 0 {
        "0"@
    } else if d == 1 {
        "1"@
    } else if d == 2 {
        "2"@
    } else if d == 3 {
        "3"@
    } else if d == 4 {
        "4"@
    } else if d == 5 {
        "5"@
    } else if d == 6 {
        "6"@
    } else if d == 7 {
        "7"@
    } else if d == 8 {
        "8"@
    } else {
        "9"@
    }
}

/// The decimal rendering of a number.
pub open spec fn spec_decimal(n: nat) -> Seq<char>
    decreases n,
{
    if n < 10 {
        spec_digit(n)
    } else {
        spec_decimal(n / 10) + spec_digit(n % 10)
    }
}

/// Parses one expression with precedence climbing: a prefix macro or a
/// bare term gives the head, then infix operators above the minimum
/// precedence extend it from the left.
pub open spec fn spec_parse_expression(ms: Seq<Macro>, trees: Seq<SpecTree>, min: Precedence) -> SpecMatch
    decreases forest_size(trees), 2int, 0int, 0int,
{
    match spec_parse_head(ms, trees) {
        SpecMatch::Matched { result: lhs, consumed: h } => {
            proof {
                lemma_skip_trees(trees, h);
            }
            match spec_infix_loop(ms, lhs, skip_trees(trees, h), min) {
                SpecMatch::Matched { result, consumed } => SpecMatch::Matched {
                    result,
                    consumed: h + consumed,
                },
                SpecMatch::Failed { at, span, message } => SpecMatch::Failed {
                    at: h + at,
                    span,
                    message,
                },
            }
        },
        SpecMatch::Failed { at, span, message } => SpecMatch::Failed { at, span, message },
    }
}

/// The head of an expression: a declared prefix macro applied to its
/// matched arguments, or one bare tree.
pub open spec fn spec_parse_head(ms: Seq<Macro>, trees: Seq<SpecTree>) -> SpecMatch
    decreases forest_size(trees), 1int, 0int, 0int,
{
    let k = ws_prefix(trees);
    if k < trees.len() {
        proof {
            lemma_ws_prefix(trees);
            lemma_skip_trees(trees, k + 1);
        }
        if trees[k as int] is Token {
            let text = trees[k as int]->Token_0.text;
            match first_macro(ms, prefix_pred(text)) {
                Some(mac) => match spec_match(mac.signature, skip_trees(trees, k + 1), Some(ms)) {
                    SpecMatch::Matched { result: args, consumed: n } => match spec_expand(
                        mac.expansion,
                        args,
                        None,
                    ) {
                        Ok(t) => SpecMatch::Matched { result: t, consumed: k + 1 + n },
                        Err(msg) => SpecMatch::Failed {
                            at: k + 1 + n,
                            span: SourceLocation { offset: 0, len: 0 },
                            message: msg,
                        },
                    },
                    SpecMatch::Failed { at, span, message } => SpecMatch::Failed {
                        at: k + 1 + at,
                        span,
                        message,
                    },
                },
                None => SpecMatch::Matched { result: trees[k as int], consumed: k + 1 },
            }
        } else {
            SpecMatch::Matched { result: trees[k as int], consumed: k + 1 }
        }
    } else {
        SpecMatch::Failed {
            at: k,
            span: SourceLocation { offset: 0, len: 0 },
            message: "Expected expression"@,
        }
    }
}

/// The infix phase of precedence climbing: as long as the next
/// non-whitespace token names an applicable operator, consume it, match
/// its signature, expand with the accumulated left-hand side, and repeat.
pub open spec fn spec_infix_loop(
    ms: Seq<Macro>,
    lhs: SpecTree,
    trees: Seq<SpecTree>,
    min: Precedence,
) -> SpecMatch
    decreases forest_size(trees), 0int, 0int, 0int,
{
    let k = ws_prefix(trees);
    if k < trees.len() && trees[k as int] is Token {
        let text = trees[k as int]->Token_0.text;
        match first_macro(ms, infix_pred(text, min)) {
            Some(mac) => {
                proof {
                    lemma_ws_prefix(trees);
                    lemma_skip_trees(trees, k + 1);
                }
                match spec_match(mac.signature, skip_trees(trees, k + 1), Some(ms)) {
                    SpecMatch::Matched { result: args, consumed: n } => match spec_expand(
                        mac.expansion,
                        args,
                        Some(lhs),
                    ) {
                        Ok(t) => {
                            proof {
                                lemma_skip_trees(trees, k + 1 + n);
                            }
                            match spec_infix_loop(ms, t, skip_trees(trees, k + 1 + n), min) {
                                SpecMatch::Matched { result, consumed } => SpecMatch::Matched {
                                    result,
                                    consumed: k + 1 + n + consumed,
                                },
                                SpecMatch::Failed { at, span, message } => SpecMatch::Failed {
                                    at: k + 1 + n + at,
                                    span,
                                    message,
                                },
                            }
                        },
                        Err(msg) => SpecMatch::Failed {
                            at: k + 1 + n,
                            span: SourceLocation { offset: 0, len: 0 },
                            message: msg,
                        },
                    },
                    SpecMatch::Failed { at, span, message } => SpecMatch::Failed {
                        at: k + 1 + at,
                        span,
                        message,
                    },
                }
            },
            None => SpecMatch::Matched { result: lhs, consumed: 0 },
        }
    } else {
        SpecMatch::Matched { result: lhs, consumed: 0 }
    }
}

/// Skipping twice skips the sum.
pub proof fn lemma_skip_trees_compose(ts: Seq<SpecTree>, a: nat, b: nat)
    ensures
        skip_trees(skip_trees(ts, a), b) == skip_trees(ts, a + b),
{
    assert(skip_trees(skip_trees(ts, a), b) =~= skip_trees(ts, a + b));
}

/// A scan that stops at the first non-whitespace tree has counted exactly
/// the whitespace prefix.
pub proof fn lemma_ws_scan(ts: Seq<SpecTree>, i: nat)
    requires
        i <= ts.len(),
        forall|j: int| 0 <= j < i ==> is_ws_tree(ts[j]),
        i == ts.len() || !is_ws_tree(ts[i as int]),
    ensures
        ws_prefix(ts) == i,
    decreases i,
{
    if i == 0 {
    } else {
        assert(is_ws_tree(ts[0]));
        let d = ts.drop_first();
        assert forall|j: int| 0 <= j < i - 1 implies is_ws_tree(d[j]) by {
            assert(d[j] == ts[j + 1]);
        }
        if i < ts.len() {
            assert(d[i - 1] == ts[i as int]);
        }
        lemma_ws_scan(d, (i - 1) as nat);
    }
}

/// Whether the tree is a whitespace token.
pub fn tree_is_ws(t: &TokenTree) -> (r: bool)
    ensures
        r == is_ws_tree(tree_view(*t)),
{
    match t {
        TokenTree::Token(tok) => tok.kind.is_whitespace(),
        _ => false,
    }
}

/// The number of leading whitespace tokens of the stream.
pub fn stream_ws_count(stream: &TokenStream) -> (k: usize)
    ensures
        k == ws_prefix(trees_view(stream.trees@)),
        k <= stream.trees@.len(),
{
    let ghost tv = trees_view(stream.trees@);
    proof {
        crate::token::lemma_trees_view_index(stream.trees@);
    }
    let mut i: usize = 0;
    while i < stream.trees.len() && tree_is_ws(&stream.trees[i])
        invariant
            i <= stream.trees@.len(),
            tv == trees_view(stream.trees@),
            tv.len() == stream.trees@.len(),
            forall|j: int| 0 <= j < stream.trees@.len() ==> tv[j] == tree_view(
                #[trigger] stream.trees@[j],
            ),
            forall|j: int| 0 <= j < i ==> is_ws_tree(tv[j]),
        decreases stream.trees@.len() - i,
    {
        i = i + 1;
    }
    proof {
        lemma_ws_scan(tv, i as nat);
    }
    i
}

/// The span a tree offers for diagnostics.
fn tree_span_of(t: &TokenTree) -> (r: SourceLocation)
    ensures
        r == spec_tree_span(tree_view(*t)),
{
    match t {
        TokenTree::Token(tok) => tok.location,
        TokenTree::Delimited(_, _, loc, _) => *loc,
        _ => SourceLocation { offset: 0, len: 0 },
    }
}

/// What a diagnostic says was found in place of the expected construct.
fn tree_found(t: &TokenTree) -> (r: String)
    ensures
        r@ == spec_tree_found(tree_view(*t)),
{
    match t {
        TokenTree::Token(tok) => tok.kind.describe(),
        TokenTree::Delimited(d, _, _, _) => {
            let mut s = "Delimiter ".to_owned();
            s.append(d.kind);
            s
        },
        TokenTree::Group(_) => "Group".to_owned(),
        TokenTree::Error(_) => "Error".to_owned(),
        TokenTree::Empty => "Empty".to_owned(),
    }
}

/// One decimal digit as text.
fn digit_str(d: usize) -> (r: &'static str)
    requires
        d < 10,
    ensures
        r@ == spec_digit(d as nat),
{
    if d == 0 {
        "0"
    } else if d == 1 {
        "1"
    } else if d == 2 {
        "2"
    } else if d == 3 {
        "3"
    } else if d == 4 {
        "4"
    } else if d == 5 {
        "5"
    } else if d == 6 {
        "6"
    } else if d == 7 {
        "7"
    } else if d == 8 {
        "8"
    } else {
        "9"
    }
}

/// The decimal rendering of a number.
pub fn usize_to_string(n: usize) -> (r: String)
    ensures
        r@ == spec_decimal(n as nat),
    decreases n,
{
    if n < 10 {
        digit_str(n).to_owned()
    } else {
        let mut s = usize_to_string(n / 10);
        s.append(digit_str(n % 10));
        s
    }
}

/// A match outcome whose consumption and failure position are both pushed
/// `d` trees further into the stream.
pub open spec fn shift_match(m: SpecMatch, d: nat) -> SpecMatch {
    match m {
        SpecMatch::Matched { result, consumed } => SpecMatch::Matched {
            result,
            consumed: consumed + d,
        },
        SpecMatch::Failed { at, span, message } => SpecMatch::Failed { at: at + d, span, message },
    }
}

/// Whether an executable result mirrors a match outcome exactly: same
/// result tree and remaining stream on success, same position, span and
/// message on failure.
pub open spec fn result_mirrors<'a>(sm: SpecMatch, stream: TokenStream<'a>, r: MatchResult<'a>) -> bool {
    match sm {
        SpecMatch::Matched { result, consumed } => {
            &&& r is Ok
            &&& tree_view(r->Ok_0.0) == result
            &&& trees_view(r->Ok_0.1.trees@) == skip_trees(trees_view(stream.trees@), consumed)
        },
        SpecMatch::Failed { at, span, message } => {
            &&& r is Err
            &&& r->Err_0.error.span == span
            &&& r->Err_0.error.message@ == message
            &&& trees_view(r->Err_0.rest.trees@) == skip_trees(trees_view(stream.trees@), at)
        },
    }
}

/// The contract of [`Shape::match_shape`]: the executable result mirrors
/// [`spec_match`] exactly, in result, consumption, failure position, span
/// and message.
pub open spec fn match_post<'a>(
    shape: Shape,
    stream: TokenStream<'a>,
    macros: Option<Seq<Macro>>,
    r: MatchResult<'a>,
) -> bool {
    result_mirrors(spec_match(shape, trees_view(stream.trees@), macros), stream, r)
}

impl Shape {
    /// The adjacency constraint this shape places on its surroundings.
    pub fn adjacency(&self) -> (r: AdjacencyConstraint)
        ensures
            r == AdjacencyConstraint::Unconstrained,
    {
        AdjacencyConstraint::Unconstrained
    }

    /// Tries to match the shape against the stream: the produced tree and
    /// the remaining stream, or a diagnostic and the position where
    /// matching gave up. Behaves exactly as [`spec_match`] says.
    pub fn match_shape<'a, 'b>(&self, stream: TokenStream<'a>, ctx: MatchContext<'b>) -> (r:
        MatchResult<'a>)
        ensures
            match_post(*self, stream, ctx_macros(ctx), r),
        decreases forest_size(trees_view(stream.trees@)), 3int, shape_size(*self), 1int,
    {
        let ghost tv = trees_view(stream.trees@);
        proof {
            crate::token::lemma_trees_view_index(stream.trees@);
        }
        match self {
            Shape::Term(m) => {
                let k = stream_ws_count(&stream);
                if k < stream.trees.len() {
                    let tree = &stream.trees[k];
                    proof {
                        lemma_trees_view_subrange(stream.trees@, k + 1 as int, stream.trees@.len() as int);
                        lemma_trees_view_subrange(stream.trees@, k as int, stream.trees@.len() as int);
                    }
                    if m.matches(tree) {
                        Ok((tree.duplicate(), stream.advance(k + 1)))
                    } else {
                        let mut message = "Expected ".to_owned();
                        message.append(m.describe().as_str());
                        message.append(", found ");
                        message.append(tree_found(tree).as_str());
                        Err(MatchFailure {
                            error: ParseError { span: tree_span_of(tree), message },
                            rest: stream.advance(k),
                        })
                    }
                } else {
                    let mut message = "Expected ".to_owned();
                    message.append(m.describe().as_str());
                    message.append(", found EOF");
                    proof {
                        lemma_trees_view_subrange(stream.trees@, k as int, stream.trees@.len() as int);
                    }
                    Err(MatchFailure {
                        error: ParseError {
                            span: SourceLocation { offset: 0, len: 0 },
                            message,
                        },
                        rest: stream.advance(k),
                    })
                }
            },
            Shape::Sequence(a, b) => match a.match_shape(stream, ctx) {
                Ok((ra, s1)) => {
                    proof {
                        lemma_skip_trees(tv, spec_match(**a, tv, ctx_macros(ctx))->Matched_consumed);
                    }
                    match b.match_shape(s1, ctx) {
                        Ok((rb, s2)) => {
                            let ghost rav = tree_view(ra);
                            let ghost rbv = tree_view(rb);
                            let ghost n = spec_match(**a, tv, ctx_macros(ctx))->Matched_consumed;
                            let ghost mm = spec_match(
                                **b,
                                skip_trees(tv, n),
                                ctx_macros(ctx),
                            )->Matched_consumed;
                            let group = TokenTree::Group(vec![ra, rb]);
                            proof {
                                crate::token::lemma_trees_view_index(group->Group_0@);
                                assert(trees_view(group->Group_0@) =~= seq![rav, rbv]);
                                lemma_skip_trees_compose(tv, n, mm);
                            }
                            Ok((group, s2))
                        },
                        Err(f) => {
                            proof {
                                let n = spec_match(**a, tv, ctx_macros(ctx))->Matched_consumed;
                                let at = spec_match(
                                    **b,
                                    skip_trees(tv, n),
                                    ctx_macros(ctx),
                                )->Failed_at;
                                lemma_skip_trees_compose(tv, n, at);
                            }
                            Err(f)
                        },
                    }
                },
                Err(f) => Err(f),
            },
            Shape::Choice(a, b) => match a.match_shape(stream, ctx) {
                Ok(x) => Ok(x),
                Err(_) => b.match_shape(stream, ctx),
            },
            Shape::Rep(a) => {
                let mut current = stream;
                let mut results: Vec<TokenTree> = Vec::new();
                let ghost ms = ctx_macros(ctx);
                proof {
                    assert(skip_trees(tv, 0) =~= tv);
                    assert(skip_trees(tv, spec_rep(**a, tv, ms).1) =~= skip_trees(
                        trees_view(current.trees@),
                        spec_rep(**a, trees_view(current.trees@), ms).1,
                    ));
                }
                loop
                    invariant_except_break
                        spec_rep(**a, tv, ms).0 == trees_view(results@) + spec_rep(
                            **a,
                            trees_view(current.trees@),
                            ms,
                        ).0,
                        skip_trees(tv, spec_rep(**a, tv, ms).1) == skip_trees(
                            trees_view(current.trees@),
                            spec_rep(**a, trees_view(current.trees@), ms).1,
                        ),
                        exists|p: nat| trees_view(current.trees@) == skip_trees(tv, p),
                        shape_size(**a) < shape_size(*self),
                        ms == ctx_macros(ctx),
                        tv == trees_view(stream.trees@),
                    ensures
                        ({
                            let (rs, c) = spec_rep(**a, tv, ms);
                            trees_view(results@) == rs && trees_view(current.trees@) == skip_trees(
                                tv,
                                c,
                            )
                        }),
                    decreases current.trees@.len(),
                {
                    let ghost cur_tv = trees_view(current.trees@);
                    proof {
                        crate::token::lemma_trees_view_index(current.trees@);
                        let p = choose|p: nat| trees_view(current.trees@) == skip_trees(tv, p);
                        lemma_skip_trees(tv, p);
                    }
                    match a.match_shape(current, ctx) {
                        Ok((res, next)) => {
                            let ghost n = spec_match(**a, cur_tv, ms)->Matched_consumed;
                            proof {
                                crate::token::lemma_trees_view_index(next.trees@);
                            }
                            if next.trees.len() == current.trees.len() {
                                proof {
                                    assert(trees_view(next.trees@).len() == cur_tv.len());
                                    assert(n == 0 || cur_tv.len() == 0);
                                }
                                let ghost before = results@;
                                let ghost resv = tree_view(res);
                                results.push(res);
                                proof {
                                    crate::token::lemma_trees_view_push(before, res);
                                    let (rs, c) = spec_rep(**a, cur_tv, ms);
                                    assert(rs == seq![resv] && c == 0);
                                    assert(trees_view(results@) =~= trees_view(before) + rs);
                                    assert(skip_trees(cur_tv, 0) =~= cur_tv);
                                }
                                break ;
                            }
                            proof {
                                assert(trees_view(next.trees@).len() < cur_tv.len());
                                assert(!(n == 0 || cur_tv.len() == 0));
                                let p = choose|p: nat|
                                    trees_view(current.trees@) == skip_trees(tv, p);
                                lemma_skip_trees_compose(tv, p, n);
                                lemma_skip_trees_compose(cur_tv, n, spec_rep(
                                    **a,
                                    trees_view(next.trees@),
                                    ms,
                                ).1);
                            }
                            let ghost before = results@;
                            let ghost resv = tree_view(res);
                            results.push(res);
                            proof {
                                crate::token::lemma_trees_view_push(before, res);
                                let (rs, c) = spec_rep(**a, cur_tv, ms);
                                let (rs2, c2) = spec_rep(**a, trees_view(next.trees@), ms);
                                assert(rs == seq![resv] + rs2 && c == n + c2);
                                assert(trees_view(before) + rs =~= trees_view(results@) + rs2);
                            }
                            current = next;
                        },
                        Err(_) => {
                            proof {
                                let (rs, c) = spec_rep(**a, cur_tv, ms);
                                assert(rs =~= Seq::<SpecTree>::empty() && c == 0);
                                assert(trees_view(results@) + rs =~= trees_view(results@));
                                assert(skip_trees(cur_tv, 0) =~= cur_tv);
                            }
                            break ;
                        },
                    }
                }
                let ghost resv = trees_view(results@);
                let group = TokenTree::Group(results);
                proof {
                    assert(trees_view(group->Group_0@) == resv);
                }
                Ok((group, current))
            },
            Shape::Enter(d, inner) => {
                let k = stream_ws_count(&stream);
                proof {
                    lemma_trees_view_subrange(stream.trees@, k as int, stream.trees@.len() as int);
                }
                if k < stream.trees.len() {
                    let tree = &stream.trees[k];
                    match tree {
                        TokenTree::Delimited(d2, content, loc, _) => {
                            if str_eq(d2.kind, d.kind) {
                                let inner_stream = TokenStream::new(content.as_slice());
                                proof {
                                    lemma_forest_size_skip(tv, k as int);
                                    lemma_tree_size_pos(tv[k as int]);
                                    assert(tv.subrange(k as int, tv.len() as int)[0] == tv[
                                        k as int]);
                                    assert(forest_size(tv.subrange(k as int, tv.len() as int))
                                        >= tree_size(tv[k as int]));
                                    assert(tv[k as int]->Delimited_1 == trees_view(content@));
                                }
                                match inner.match_shape(inner_stream, ctx) {
                                    Ok((res, remaining_inner)) => {
                                        proof {
                                            crate::token::lemma_trees_view_index(
                                                remaining_inner.trees@,
                                            );
                                        }
                                        let k2 = stream_ws_count(&remaining_inner);
                                        if k2 == remaining_inner.trees.len() {
                                            proof {
                                                lemma_trees_view_subrange(
                                                    stream.trees@,
                                                    k + 1 as int,
                                                    stream.trees@.len() as int,
                                                );
                                            }
                                            Ok((res, stream.advance(k + 1)))
                                        } else {
                                            let t2 = &remaining_inner.trees[k2];
                                            let span = match t2 {
                                                TokenTree::Token(tok) => tok.location,
                                                TokenTree::Delimited(_, _, l, _) => *l,
                                                _ => *loc,
                                            };
                                            proof {
                                                crate::token::lemma_trees_view_index(
                                                    remaining_inner.trees@,
                                                );
                                            }
                                            Err(MatchFailure {
                                                error: ParseError {
                                                    span,
                                                    message: "Expected end of group".to_owned(),
                                                },
                                                rest: stream.advance(k),
                                            })
                                        }
                                    },
                                    Err(f) => Err(MatchFailure {
                                        error: f.error,
                                        rest: stream.advance(k),
                                    }),
                                }
                            } else {
                                let mut message = "Expected Delimiter '".to_owned();
                                message.append(d.kind);
                                message.append("'");
                                Err(MatchFailure {
                                    error: ParseError {
                                        span: SourceLocation { offset: 0, len: 0 },
                                        message,
                                    },
                                    rest: stream.advance(k),
                                })
                            }
                        },
                        TokenTree::Token(tok) => {
                            let mut message = "Expected Delimiter '".to_owned();
                            message.append(d.kind);
                            message.append("'");
                            Err(MatchFailure {
                                error: ParseError { span: tok.location, message },
                                rest: stream.advance(k),
                            })
                        },
                        _ => {
                            let mut message = "Expected Delimiter '".to_owned();
                            message.append(d.kind);
                            message.append("'");
                            Err(MatchFailure {
                                error: ParseError {
                                    span: SourceLocation { offset: 0, len: 0 },
                                    message,
                                },
                                rest: stream.advance(k),
                            })
                        },
                    }
                } else {
                    let mut message = "Expected Delimiter '".to_owned();
                    message.append(d.kind);
                    message.append("'");
                    Err(MatchFailure {
                        error: ParseError { span: SourceLocation { offset: 0, len: 0 }, message },
                        rest: stream.advance(k),
                    })
                }
            },
            Shape::Adjacent(a, b) => match a.match_shape(stream, ctx) {
                Ok((ra, s1)) => {
                    let ghost n = spec_match(**a, tv, ctx_macros(ctx))->Matched_consumed;
                    proof {
                        crate::token::lemma_trees_view_index(s1.trees@);
                    }
                    let ws_next = if s1.trees.len() > 0 {
                        tree_is_ws(&s1.trees[0])
                    } else {
                        false
                    };
                    if ws_next {
                        let tok_loc = match &s1.trees[0] {
                            TokenTree::Token(tok) => tok.location,
                            _ => SourceLocation { offset: 0, len: 0 },
                        };
                        Err(MatchFailure {
                            error: ParseError {
                                span: tok_loc,
                                message: "Unexpected whitespace".to_owned(),
                            },
                            rest: s1,
                        })
                    } else {
                        proof {
                            lemma_skip_trees(tv, n);
                        }
                        match b.match_shape(s1, ctx) {
                            Ok((rb, s2)) => {
                                let ghost rav = tree_view(ra);
                                let ghost rbv = tree_view(rb);
                                let ghost mm = spec_match(
                                    **b,
                                    skip_trees(tv, n),
                                    ctx_macros(ctx),
                                )->Matched_consumed;
                                let group = TokenTree::Group(vec![ra, rb]);
                                proof {
                                    crate::token::lemma_trees_view_index(group->Group_0@);
                                    assert(trees_view(group->Group_0@) =~= seq![rav, rbv]);
                                    lemma_skip_trees_compose(tv, n, mm);
                                }
                                Ok((group, s2))
                            },
                            Err(f) => {
                                proof {
                                    let at = spec_match(
                                        **b,
                                        skip_trees(tv, n),
                                        ctx_macros(ctx),
                                    )->Failed_at;
                                    lemma_skip_trees_compose(tv, n, at);
                                }
                                Err(f)
                            },
                        }
                    }
                },
                Err(f) => Err(f),
            },
            Shape::Empty => {
                proof {
                    assert(skip_trees(tv, 0) =~= tv);
                }
                Ok((TokenTree::Empty, stream))
            },
            Shape::End => {
                let k = stream_ws_count(&stream);
                proof {
                    lemma_trees_view_subrange(stream.trees@, k as int, stream.trees@.len() as int);
                }
                if k == stream.trees.len() {
                    Ok((TokenTree::Empty, stream.advance(k)))
                } else {
                    let tree = &stream.trees[k];
                    Err(MatchFailure {
                        error: ParseError {
                            span: tree_span_of(tree),
                            message: "Expected end of input".to_owned(),
                        },
                        rest: stream.advance(k),
                    })
                }
            },
            Shape::Expr(p) => match ctx {
                MatchContext::NoOp => {
                    let span = if stream.trees.len() > 0 {
                        match &stream.trees[0] {
                            TokenTree::Token(tok) => tok.location,
                            _ => SourceLocation { offset: 0, len: 0 },
                        }
                    } else {
                        SourceLocation { offset: 0, len: 0 }
                    };
                    proof {
                        assert(skip_trees(tv, 0) =~= tv);
                    }
                    Err(MatchFailure {
                        error: ParseError {
                            span,
                            message: "Expression parsing not supported".to_owned(),
                        },
                        rest: stream,
                    })
                },
                MatchContext::Parse(lang) => crate::parser::parse_expression(lang, stream, *p),
            },
            Shape::Recover(inner, m) => match inner.match_shape(stream, ctx) {
                Ok(x) => Ok(x),
                Err(f) => {
                    let ghost at = spec_match(**inner, tv, ctx_macros(ctx))->Failed_at;
                    let total_len = stream.trees.len();
                    let mut cur = f.rest;
                    let mut count: usize = 0;
                    let ghost mut pos: nat = if at <= tv.len() {
                        at
                    } else {
                        tv.len()
                    };
                    proof {
                        if at > tv.len() {
                            assert(skip_trees(tv, at) =~= skip_trees(tv, tv.len()));
                        }
                    }
                    loop
                        invariant_except_break
                            tv == trees_view(stream.trees@),
                            tv.len() == total_len,
                            pos <= tv.len(),
                            count <= pos,
                            trees_view(cur.trees@) == skip_trees(tv, pos),
                            spec_recover_scan(*m, tv, at) == {
                                let (c, s) = spec_recover_scan(*m, tv, pos);
                                ((count + c) as nat, s)
                            },
                        ensures
                            ({
                                let (c, s) = spec_recover_scan(*m, tv, at);
                                c == count && trees_view(cur.trees@) == skip_trees(tv, s)
                            }),
                        decreases tv.len() - pos,
                    {
                        proof {
                            crate::token::lemma_trees_view_index(cur.trees@);
                        }
                        if cur.trees.is_empty() {
                            proof {
                                assert(pos == tv.len());
                            }
                            break ;
                        }
                        let t = &cur.trees[0];
                        proof {
                            assert(pos < tv.len());
                            assert(trees_view(cur.trees@)[0] == tv[pos as int]);
                            lemma_skip_trees_compose(tv, pos, 1);
                            lemma_trees_view_subrange(cur.trees@, 1, cur.trees@.len() as int);
                        }
                        if tree_is_ws(t) {
                            cur = cur.advance(1);
                            proof {
                                pos = pos + 1;
                            }
                        } else if m.matches(t) {
                            break ;
                        } else {
                            count = count + 1;
                            cur = cur.advance(1);
                            proof {
                                pos = pos + 1;
                            }
                        }
                    }
                    let message = if count > 0 {
                        let mut s = "Parse error, skipped ".to_owned();
                        s.append(usize_to_string(count).as_str());
                        s.append(" tokens");
                        s
                    } else {
                        "Parse error".to_owned()
                    };
                    Ok((TokenTree::Error(message), cur))
                },
            },
        }
    }
}

/// What completing a `Term` shape suggests: while the cursor sits inside a
/// leading whitespace token, the matcher's pure insertion; at the first
/// non-whitespace tree, the matcher's suggestion when the cursor sits in a
/// token, an insertion when the tree still lies ahead of the cursor, and
/// nothing once the stream has passed the cursor. At the end of the stream,
/// a pure insertion.
pub open spec fn spec_term_complete(m: Matcher, trees: Seq<SpecTree>, cursor: usize) -> Seq<
    SpecCompletion,
>
    decreases trees,
{
    if trees.len() == 0 {
        spec_suggest_insertion(m)
    } else if is_ws_tree(trees[0]) {
        let loc = trees[0]->Token_0.location;
        if loc.offset <= cursor <= loc.offset + loc.len {
            spec_suggest_insertion(m)
        } else {
            spec_term_complete(m, trees.drop_first(), cursor)
        }
    } else {
        match trees[0] {
            SpecTree::Token(tok) => if tok.location.offset <= cursor <= tok.location.offset
                + tok.location.len {
                spec_suggest(m, tok)
            } else if tok.location.offset >= cursor {
                spec_suggest_insertion(m)
            } else {
                Seq::empty()
            },
            SpecTree::Delimited(_, _, loc, _) => if loc.offset >= cursor {
                spec_suggest_insertion(m)
            } else {
                Seq::empty()
            },
            _ => Seq::empty(),
        }
    }
}

/// What completing a shape at a cursor position suggests, with the same
/// traversal as matching but never failing.
pub open spec fn spec_complete(
    shape: Shape,
    trees: Seq<SpecTree>,
    macros: Option<Seq<Macro>>,
    cursor: usize,
) -> Seq<SpecCompletion>
    decreases forest_size(trees), 5int, shape_size(shape), 1int,
{
    match shape {
        Shape::Term(m) => spec_term_complete(m, trees, cursor),
        Shape::Sequence(a, b) => match spec_match(*a, trees, macros) {
            SpecMatch::Matched { consumed: n, .. } => {
                let ca = spec_complete(*a, trees, macros, cursor);
                if ca.len() > 0 {
                    ca
                } else {
                    proof {
                        lemma_skip_trees(trees, n);
                    }
                    spec_complete(*b, skip_trees(trees, n), macros, cursor)
                }
            },
            SpecMatch::Failed { .. } => spec_complete(*a, trees, macros, cursor),
        },
        Shape::Choice(a, b) => spec_complete(*a, trees, macros, cursor) + spec_complete(
            *b,
            trees,
            macros,
            cursor,
        ),
        Shape::Rep(a) => spec_rep_complete(*a, trees, macros, cursor),
        Shape::Enter(d, inner) => {
            let k = ws_prefix(trees);
            if k < trees.len() && trees[k as int] is Delimited && trees[k as int]->Delimited_0.kind
                == d@.kind && {
                let loc = trees[k as int]->Delimited_2;
                loc.offset <= cursor <= loc.offset + loc.len
            } {
                let children = trees[k as int]->Delimited_1;
                proof {
                    lemma_forest_size_skip(trees, k as int);
                    lemma_tree_size_pos(trees[k as int]);
                    assert(trees.subrange(k as int, trees.len() as int)[0] == trees[k as int]);
                    assert(forest_size(trees.subrange(k as int, trees.len() as int)) >= tree_size(
                        trees[k as int],
                    ));
                }
                spec_complete(*inner, children, macros, cursor)
            } else {
                Seq::empty()
            }
        },
        _ => Seq::empty(),
    }
}

/// Repetition completion: probe the current position for suggestions, and
/// while there are none, advance by one match of the shape.
pub open spec fn spec_rep_complete(
    shape: Shape,
    trees: Seq<SpecTree>,
    macros: Option<Seq<Macro>>,
    cursor: usize,
) -> Seq<SpecCompletion>
    decreases forest_size(trees), 5int, shape_size(shape), 2int,
{
    let items = spec_complete(shape, trees, macros, cursor);
    if items.len() > 0 {
        items
    } else {
        match spec_match(shape, trees, macros) {
            SpecMatch::Matched { consumed: n, .. } => {
                if n == 0 || trees.len() == 0 {
                    Seq::empty()
                } else {
                    proof {
                        lemma_skip_trees(trees, n);
                    }
                    spec_rep_complete(shape, skip_trees(trees, n), macros, cursor)
                }
            },
            SpecMatch::Failed { .. } => Seq::empty(),
        }
    }
}

impl Shape {
    /// Provides completion items for the given cursor position, traversing
    /// exactly as [`spec_complete`] says. Completion never fails: a shape
    /// with nothing to offer returns no items.
    pub fn complete<'a, 'b>(
        &self,
        stream: TokenStream<'a>,
        ctx: MatchContext<'b>,
        cursor: usize,
    ) -> (r: Vec<CompletionItem>)
        ensures
            r.deep_view() == spec_complete(
                *self,
                trees_view(stream.trees@),
                ctx_macros(ctx),
                cursor,
            ),
        decreases forest_size(trees_view(stream.trees@)), 5int, shape_size(*self), 1int,
    {
        let ghost tv = trees_view(stream.trees@);
        proof {
            crate::token::lemma_trees_view_index(stream.trees@);
        }
        match self {
            Shape::Term(m) => {
                let mut i: usize = 0;
                proof {
                    assert(tv.subrange(0, tv.len() as int) =~= tv);
                }
                loop
                    invariant
                        i <= tv.len(),
                        tv == trees_view(stream.trees@),
                        tv.len() == stream.trees@.len(),
                        forall|j: int| 0 <= j < stream.trees@.len() ==> tv[j] == tree_view(
                            #[trigger] stream.trees@[j],
                        ),
                        spec_complete(*self, tv, ctx_macros(ctx), cursor) == spec_term_complete(
                            *m,
                            tv.subrange(i as int, tv.len() as int),
                            cursor,
                        ),
                    ensures
                        i == tv.len() || !is_ws_tree(tv[i as int]),
                    decreases tv.len() - i,
                {
                    proof {
                        if i < tv.len() {
                            assert(tv.subrange(i as int, tv.len() as int)[0] == tv[i as int]);
                            assert(tv.subrange(i as int, tv.len() as int).drop_first() =~=
                                tv.subrange(i + 1, tv.len() as int));
                        } else {
                            assert(tv.subrange(i as int, tv.len() as int).len() == 0);
                        }
                    }
                    if i >= stream.trees.len() {
                        break ;
                    }
                    let t = &stream.trees[i];
                    if !tree_is_ws(t) {
                        break ;
                    }
                    let loc = match t {
                        TokenTree::Token(tok) => tok.location,
                        _ => SourceLocation { offset: 0, len: 0 },
                    };
                    if loc.contains(cursor) {
                        return m.suggest_insertion();
                    }
                    i = i + 1;
                }
                proof {
                    if i < tv.len() {
                        assert(tv.subrange(i as int, tv.len() as int)[0] == tv[i as int]);
                    }
                }
                if i >= stream.trees.len() {
                    m.suggest_insertion()
                } else {
                    let t = &stream.trees[i];
                    match t {
                        TokenTree::Token(tok) => {
                            if tok.location.contains(cursor) {
                                m.suggest(tok)
                            } else if tok.location.offset >= cursor {
                                m.suggest_insertion()
                            } else {
                                let v: Vec<CompletionItem> = Vec::new();
                                proof {
                                    assert(v.deep_view() =~= Seq::<SpecCompletion>::empty());
                                }
                                v
                            }
                        },
                        TokenTree::Delimited(_, _, loc, _) => {
                            if loc.offset >= cursor {
                                m.suggest_insertion()
                            } else {
                                let v: Vec<CompletionItem> = Vec::new();
                                proof {
                                    assert(v.deep_view() =~= Seq::<SpecCompletion>::empty());
                                }
                                v
                            }
                        },
                        _ => {
                            let v: Vec<CompletionItem> = Vec::new();
                            proof {
                                assert(v.deep_view() =~= Seq::<SpecCompletion>::empty());
                            }
                            v
                        },
                    }
                }
            },
            Shape::Sequence(a, b) => match a.match_shape(stream, ctx) {
                Ok((_, s1)) => {
                    let ca = a.complete(stream, ctx, cursor);
                    if ca.len() > 0 {
                        proof {
                            assert(ca.deep_view().len() == ca@.len());
                        }
                        ca
                    } else {
                        proof {
                            assert(ca.deep_view().len() == ca@.len());
                            lemma_skip_trees(
                                tv,
                                spec_match(**a, tv, ctx_macros(ctx))->Matched_consumed,
                            );
                        }
                        b.complete(s1, ctx, cursor)
                    }
                },
                Err(_) => a.complete(stream, ctx, cursor),
            },
            Shape::Choice(a, b) => {
                let mut va = a.complete(stream, ctx, cursor);
                let ghost dva = va.deep_view();
                let mut vb = b.complete(stream, ctx, cursor);
                let ghost dvb = vb.deep_view();
                va.append(&mut vb);
                proof {
                    assert(va.deep_view() =~= dva + dvb);
                }
                va
            },
            Shape::Rep(a) => {
                let mut current = stream;
                proof {
                    assert(skip_trees(tv, 0) =~= tv);
                }
                loop
                    invariant
                        tv == trees_view(stream.trees@),
                        shape_size(**a) < shape_size(*self),
                        exists|p: nat| trees_view(current.trees@) == skip_trees(tv, p),
                        spec_complete(*self, tv, ctx_macros(ctx), cursor) == spec_rep_complete(
                            **a,
                            trees_view(current.trees@),
                            ctx_macros(ctx),
                            cursor,
                        ),
                    decreases current.trees@.len(),
                {
                    let ghost cur_tv = trees_view(current.trees@);
                    proof {
                        crate::token::lemma_trees_view_index(current.trees@);
                        let p = choose|p: nat| trees_view(current.trees@) == skip_trees(tv, p);
                        lemma_skip_trees(tv, p);
                    }
                    let items = a.complete(current, ctx, cursor);
                    proof {
                        assert(items.deep_view().len() == items@.len());
                    }
                    if items.len() > 0 {
                        return items;
                    }
                    match a.match_shape(current, ctx) {
                        Ok((_, next)) => {
                            let ghost n = spec_match(**a, cur_tv, ctx_macros(ctx))->Matched_consumed;
                            proof {
                                crate::token::lemma_trees_view_index(next.trees@);
                            }
                            if next.trees.len() == current.trees.len() {
                                proof {
                                    assert(trees_view(next.trees@).len() == cur_tv.len());
                                    assert(n == 0 || cur_tv.len() == 0);
                                }
                                let v: Vec<CompletionItem> = Vec::new();
                                proof {
                                    assert(v.deep_view() =~= Seq::<SpecCompletion>::empty());
                                }
                                return v;
                            }
                            proof {
                                assert(trees_view(next.trees@).len() < cur_tv.len());
                                assert(!(n == 0 || cur_tv.len() == 0));
                                let p = choose|p: nat|
                                    trees_view(current.trees@) == skip_trees(tv, p);
                                lemma_skip_trees_compose(tv, p, n);
                            }
                            current = next;
                        },
                        Err(_) => {
                            let v: Vec<CompletionItem> = Vec::new();
                            proof {
                                assert(v.deep_view() =~= Seq::<SpecCompletion>::empty());
                            }
                            return v;
                        },
                    }
                }
            },
            Shape::Enter(d, inner) => {
                let k = stream_ws_count(&stream);
                if k < stream.trees.len() {
                    let tree = &stream.trees[k];
                    match tree {
                        TokenTree::Delimited(d2, content, loc, _) => {
                            if str_eq(d2.kind, d.kind) && loc.contains(cursor) {
                                let inner_stream = TokenStream::new(content.as_slice());
                                proof {
                                    lemma_forest_size_skip(tv, k as int);
                                    lemma_tree_size_pos(tv[k as int]);
                                    assert(tv.subrange(k as int, tv.len() as int)[0] == tv[
                                        k as int]);
                                    assert(forest_size(tv.subrange(k as int, tv.len() as int))
                                        >= tree_size(tv[k as int]));
                                    assert(tv[k as int]->Delimited_1 == trees_view(content@));
                                }
                                inner.complete(inner_stream, ctx, cursor)
                            } else {
                                let v: Vec<CompletionItem> = Vec::new();
                                proof {
                                    assert(v.deep_view() =~= Seq::<SpecCompletion>::empty());
                                }
                                v
                            }
                        },
                        _ => {
                            let v: Vec<CompletionItem> = Vec::new();
                            proof {
                                assert(v.deep_view() =~= Seq::<SpecCompletion>::empty());
                            }
                            v
                        },
                    }
                } else {
                    let v: Vec<CompletionItem> = Vec::new();
                    proof {
                        assert(v.deep_view() =~= Seq::<SpecCompletion>::empty());
                    }
                    v
                }
            },
            _ => {
                let v: Vec<CompletionItem> = Vec::new();
                proof {
                    assert(v.deep_view() =~= Seq::<SpecCompletion>::empty());
                }
                v
            },
        }
    }
}

/// Matches `a` joined by adjacency (no whitespace):
/// `seq(a, rep(adjacent(empty(), a_again)))`.
pub fn joined(a: Shape, a_again: Shape) -> (r: Shape)
    ensures
        r == Shape::Sequence(
            Box::new(a),
            Box::new(
                Shape::Rep(
                    Box::new(Shape::Adjacent(Box::new(Shape::Empty), Box::new(a_again))),
                ),
            ),
        ),
{
    seq(a, rep(adjacent(empty(), a_again)))
}

} // verus!
