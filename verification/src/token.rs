//! The shared data model: source locations, tokens, token trees, and the
//! cursor and stream types that the lexer and the shape algebra walk over.
//!
//! All positions and lengths count characters of the source text.

use vstd::prelude::*;

use crate::atom::{AtomKind, SpecKind};
use crate::language::{Delimiter, SpecDelimiter};

verus! {

/// A unique identifier for a variable binding.
#[derive(Debug, Clone, Copy, PartialEq, Eq, Structural)]
pub struct BindingId(pub usize);

/// A contiguous span of the source text: a start offset and a length,
/// both in characters.
#[derive(Debug, Clone, Copy, PartialEq, Eq, Structural)]
pub struct SourceLocation {
    pub offset: usize,
    pub len: usize,
}

impl SourceLocation {
    pub fn new(start: usize, len: usize) -> (r: Self)
        ensures
            r.offset == start,
            r.len == len,
    {
        Self { offset: start, len }
    }

    /// Whether `offset` falls within the span, inclusive of the end
    /// boundary: completion must match at a token's trailing edge.
    pub fn contains(&self, offset: usize) -> (r: bool)
        ensures
            r == (self.offset <= offset && offset <= self.offset + self.len),
    {
        offset >= self.offset && offset - self.offset <= self.len
    }
}

/// A single atomic unit of code (identifier, keyword, operator, etc.).
#[derive(Debug, Clone, PartialEq)]
pub struct Token {
    pub kind: AtomKind,
    pub text: String,
    pub location: SourceLocation,
    /// The index of the atom in the language definition that produced this
    /// token. Used for syntax highlighting.
    pub atom_index: Option<usize>,
    /// The ID of the variable binding this token refers to or defines.
    pub binding: Option<BindingId>,
}

/// The mathematical value of a [`Token`].
pub struct SpecToken {
    pub kind: SpecKind,
    pub text: Seq<char>,
    pub location: SourceLocation,
    pub atom_index: Option<usize>,
    pub binding: Option<BindingId>,
}

impl View for Token {
    type V = SpecToken;

    open spec fn view(&self) -> SpecToken {
        SpecToken {
            kind: self.kind@,
            text: self.text@,
            location: self.location,
            atom_index: self.atom_index,
            binding: self.binding,
        }
    }
}

impl DeepView for Token {
    type V = SpecToken;

    open spec fn deep_view(&self) -> SpecToken {
        self.view()
    }
}

impl Token {
    pub fn new(kind: AtomKind, text: &str, offset: usize) -> (r: Self)
        ensures
            r@ == (SpecToken {
                kind: kind@,
                text: text@,
                location: SourceLocation { offset, len: text@.len() as usize },
                atom_index: None,
                binding: None,
            }),
    {
        let len = text.unicode_len();
        Self {
            kind,
            text: text.to_owned(),
            location: SourceLocation { offset, len },
            atom_index: None,
            binding: None,
        }
    }

    /// A copy of the token, equal to the original at the level of views.
    pub fn duplicate(&self) -> (r: Token)
        ensures
            r@ == self@,
    {
        Token {
            kind: self.kind.duplicate(),
            text: self.text.clone(),
            location: self.location,
            atom_index: self.atom_index,
            binding: self.binding,
        }
    }
}

/// The recursive structure produced by the atomic lexer. Can be a single
/// token, a delimited group (which contains a list of trees, its span, and
/// whether its close marker was found), a transparent sequence group, an
/// error marker produced by recovery, or nothing.
#[derive(Debug, PartialEq)]
pub enum TokenTree {
    Token(Token),
    Delimited(Delimiter, Vec<TokenTree>, SourceLocation, bool),
    Group(Vec<TokenTree>),
    Error(String),
    Empty,
}

/// The mathematical value of a [`TokenTree`].
pub enum SpecTree {
    Token(SpecToken),
    Delimited(SpecDelimiter, Seq<SpecTree>, SourceLocation, bool),
    Group(Seq<SpecTree>),
    Error(Seq<char>),
    Empty,
}

/// The mathematical value of a tree.
pub open spec fn tree_view(t: TokenTree) -> SpecTree
    decreases t,
{
    match t {
        TokenTree::Token(tok) => SpecTree::Token(tok@),
        TokenTree::Delimited(d, children, loc, closed) => SpecTree::Delimited(
            d@,
            trees_view(children@),
            loc,
            closed,
        ),
        TokenTree::Group(children) => SpecTree::Group(trees_view(children@)),
        TokenTree::Error(msg) => SpecTree::Error(msg@),
        TokenTree::Empty => SpecTree::Empty,
    }
}

/// The mathematical values of a sequence of trees.
pub open spec fn trees_view(ts: Seq<TokenTree>) -> Seq<SpecTree>
    decreases ts,
{
    if ts.len() == 0 {
        Seq::empty()
    } else {
        seq![tree_view(ts[0])] + trees_view(ts.drop_first())
    }
}

/// `trees_view` maps each tree to its view, position by position.
pub broadcast proof fn lemma_trees_view_index(ts: Seq<TokenTree>)
    ensures
        (#[trigger] trees_view(ts)).len() == ts.len(),
        forall|i: int| 0 <= i < ts.len() ==> trees_view(ts)[i] == tree_view(ts[i]),
    decreases ts,
{
    if ts.len() > 0 {
        lemma_trees_view_index(ts.drop_first());
        assert forall|i: int| 0 <= i < ts.len() implies trees_view(ts)[i] == tree_view(ts[i]) by {
            if i > 0 {
                assert(trees_view(ts)[i] == trees_view(ts.drop_first())[i - 1]);
                assert(ts.drop_first()[i - 1] == ts[i]);
            }
        }
    }
}

/// Appending a tree appends its view.
pub proof fn lemma_trees_view_push(ts: Seq<TokenTree>, t: TokenTree)
    ensures
        trees_view(ts.push(t)) == trees_view(ts).push(tree_view(t)),
{
    lemma_trees_view_index(ts.push(t));
    lemma_trees_view_index(ts);
    assert(trees_view(ts.push(t)) =~= trees_view(ts).push(tree_view(t)));
}

/// Pointwise equal text makes equal forest text.
pub proof fn lemma_forest_text_pointwise(a: Seq<SpecTree>, b: Seq<SpecTree>)
    requires
        a.len() == b.len(),
        forall|i: int| 0 <= i < a.len() ==> tree_text(#[trigger] b[i]) == tree_text(a[i]),
    ensures
        forest_text(b) == forest_text(a),
    decreases a,
{
    if a.len() > 0 {
        assert forall|i: int| 0 <= i < a.drop_first().len() implies tree_text(
            #[trigger] b.drop_first()[i],
        ) == tree_text(a.drop_first()[i]) by {
            assert(b.drop_first()[i] == b[i + 1]);
            assert(a.drop_first()[i] == a[i + 1]);
        }
        lemma_forest_text_pointwise(a.drop_first(), b.drop_first());
        assert(tree_text(b[0]) == tree_text(a[0]));
    }
}

/// Taking a subrange of trees takes the same subrange of their views.
pub proof fn lemma_trees_view_subrange(ts: Seq<TokenTree>, a: int, b: int)
    requires
        0 <= a <= b <= ts.len(),
    ensures
        trees_view(ts.subrange(a, b)) == trees_view(ts).subrange(a, b),
{
    lemma_trees_view_index(ts);
    lemma_trees_view_index(ts.subrange(a, b));
    assert(trees_view(ts.subrange(a, b)) =~= trees_view(ts).subrange(a, b));
}

impl View for TokenTree {
    type V = SpecTree;

    open spec fn view(&self) -> SpecTree {
        tree_view(*self)
    }
}

impl DeepView for TokenTree {
    type V = SpecTree;

    open spec fn deep_view(&self) -> SpecTree {
        self.view()
    }
}

/// What [`TokenTree::to_sexp`] prints for a tree: token and error text in
/// double quotes, delimited nodes and groups as parenthesised lists.
pub open spec fn spec_sexp(t: SpecTree) -> Seq<char>
    decreases t,
{
    match t {
        SpecTree::Token(tok) => "\""@ + tok.text + "\""@,
        SpecTree::Delimited(d, children, _, _) => "("@ + d.kind + " "@ + spec_sexp_list(children)
            + ")"@,
        SpecTree::Group(children) => "(group "@ + spec_sexp_list(children) + ")"@,
        SpecTree::Error(msg) => "(error \""@ + msg + "\")"@,
        SpecTree::Empty => "(empty)"@,
    }
}

/// The trees' printed forms separated by single spaces.
pub open spec fn spec_sexp_list(ts: Seq<SpecTree>) -> Seq<char>
    decreases ts,
{
    if ts.len() == 0 {
        Seq::empty()
    } else if ts.len() == 1 {
        spec_sexp(ts[0])
    } else {
        spec_sexp(ts[0]) + " "@ + spec_sexp_list(ts.drop_first())
    }
}

proof fn lemma_sexp_list_snoc(ts: Seq<SpecTree>, t: SpecTree)
    requires
        ts.len() >= 1,
    ensures
        spec_sexp_list(ts.push(t)) == spec_sexp_list(ts) + " "@ + spec_sexp(t),
    decreases ts,
{
    let p = ts.push(t);
    assert(p[0] == ts[0]);
    if ts.len() == 1 {
        assert(p.drop_first() =~= seq![t]);
        assert(spec_sexp_list(p.drop_first()) == spec_sexp(t));
        assert(spec_sexp_list(p) =~= spec_sexp_list(ts) + " "@ + spec_sexp(t));
    } else {
        assert(p.drop_first() =~= ts.drop_first().push(t));
        lemma_sexp_list_snoc(ts.drop_first(), t);
        assert(spec_sexp_list(p) =~= spec_sexp_list(ts) + " "@ + spec_sexp(t));
    }
}

impl TokenTree {
    pub fn empty() -> (r: Self)
        ensures
            r@ is Empty,
    {
        TokenTree::Empty
    }

    /// A copy of the tree, equal to the original at the level of views.
    pub fn duplicate(&self) -> (r: TokenTree)
        ensures
            r@ == self@,
        decreases *self,
    {
        match self {
            TokenTree::Token(t) => TokenTree::Token(t.duplicate()),
            TokenTree::Delimited(d, children, loc, closed) => {
                let new_children = duplicate_trees(children);
                proof {
                    lemma_trees_view_pointwise(children@, new_children@);
                }
                TokenTree::Delimited(*d, new_children, *loc, *closed)
            },
            TokenTree::Group(children) => {
                let new_children = duplicate_trees(children);
                proof {
                    lemma_trees_view_pointwise(children@, new_children@);
                }
                TokenTree::Group(new_children)
            },
            TokenTree::Error(msg) => TokenTree::Error(msg.clone()),
            TokenTree::Empty => TokenTree::Empty,
        }
    }

    /// A parenthesised rendering of the tree, for debugging and tests:
    /// token text in double quotes, delimited nodes under their kind tag,
    /// groups under `group`. Text is quoted as written, without escaping.
    pub fn to_sexp(&self) -> (r: String)
        ensures
            r@ == spec_sexp(self@),
        decreases *self,
    {
        match self {
            TokenTree::Token(t) => {
                let mut s = "\"".to_owned();
                s.append(t.text.as_str());
                s.append("\"");
                s
            },
            TokenTree::Delimited(d, children, _, _) => {
                let mut s = "(".to_owned();
                s.append(d.kind);
                s.append(" ");
                append_sexp_list(&mut s, children);
                s.append(")");
                s
            },
            TokenTree::Group(children) => {
                let mut s = "(group ".to_owned();
                append_sexp_list(&mut s, children);
                s.append(")");
                s
            },
            TokenTree::Error(msg) => {
                let mut s = "(error \"".to_owned();
                s.append(msg.as_str());
                s.append("\")");
                s
            },
            TokenTree::Empty => "(empty)".to_owned(),
        }
    }
}

/// Copies of all the trees, equal to the originals at the level of views.
pub fn duplicate_trees(ts: &Vec<TokenTree>) -> (r: Vec<TokenTree>)
    ensures
        r@.len() == ts@.len(),
        forall|i: int| 0 <= i < ts@.len() ==> (#[trigger] r@[i])@ == ts@[i]@,
    decreases *ts,
{
    let mut r: Vec<TokenTree> = Vec::new();
    let mut i: usize = 0;
    while i < ts.len()
        invariant
            i <= ts@.len(),
            r@.len() == i,
            forall|j: int| 0 <= j < i ==> (#[trigger] r@[j])@ == ts@[j]@,
        decreases ts@.len() - i,
    {
        r.push(ts[i].duplicate());
        i = i + 1;
    }
    r
}

/// Pointwise equal views make equal forest views.
proof fn lemma_trees_view_pointwise(a: Seq<TokenTree>, b: Seq<TokenTree>)
    requires
        a.len() == b.len(),
        forall|i: int| 0 <= i < a.len() ==> (#[trigger] b[i])@ == a[i]@,
    ensures
        trees_view(a) == trees_view(b),
{
    lemma_trees_view_index(a);
    lemma_trees_view_index(b);
    assert(trees_view(a) =~= trees_view(b));
}

/// Appends the space-separated rendering of `children` to `s`.
fn append_sexp_list(s: &mut String, children: &Vec<TokenTree>)
    ensures
        final(s)@ == old(s)@ + spec_sexp_list(trees_view(children@)),
    decreases *children,
{
    let ghost base = s@;
    let ghost views = trees_view(children@);
    proof {
        lemma_trees_view_index(children@);
    }
    let mut i: usize = 0;
    while i < children.len()
        invariant
            i <= children@.len(),
            views == trees_view(children@),
            views.len() == children@.len(),
            forall|j: int| 0 <= j < children@.len() ==> views[j] == (#[trigger] children@[j])@,
            s@ == base + spec_sexp_list(views.subrange(0, i as int)),
        decreases children@.len() - i,
    {
        if i > 0 {
            s.append(" ");
        }
        let part = children[i].to_sexp();
        s.append(part.as_str());
        proof {
            let prev = views.subrange(0, i as int);
            let cur = views.subrange(0, i + 1 as int);
            assert(cur =~= prev.push(views[i as int]));
            if i == 0 {
                assert(cur =~= seq![views[0]]);
                assert(spec_sexp_list(cur) == spec_sexp(views[0]));
            } else {
                lemma_sexp_list_snoc(prev, views[i as int]);
            }
        }
        i = i + 1;
    }
    proof {
        assert(views.subrange(0, children@.len() as int) =~= views);
    }
}

/// The text that a tree stands for: token text, or delimiter markers around
/// the children's text. An unclosed delimited node contributes its open
/// marker only; error markers and empty trees contribute nothing.
pub open spec fn tree_text(t: SpecTree) -> Seq<char>
    decreases t,
{
    match t {
        SpecTree::Token(tok) => tok.text,
        SpecTree::Delimited(d, children, _, closed) => if closed {
            d.open + forest_text(children) + d.close
        } else {
            d.open + forest_text(children)
        },
        SpecTree::Group(children) => forest_text(children),
        SpecTree::Error(_) => Seq::empty(),
        SpecTree::Empty => Seq::empty(),
    }
}

/// The concatenated text of a sequence of trees.
pub open spec fn forest_text(ts: Seq<SpecTree>) -> Seq<char>
    decreases ts,
{
    if ts.len() == 0 {
        Seq::empty()
    } else {
        tree_text(ts[0]) + forest_text(ts.drop_first())
    }
}

/// The number of nodes in a tree; at least one. Used as a termination
/// measure by everything that walks trees.
pub open spec fn tree_size(t: SpecTree) -> nat
    decreases t,
{
    match t {
        SpecTree::Delimited(_, children, _, _) => 1 + forest_size(children),
        SpecTree::Group(children) => 1 + forest_size(children),
        _ => 1,
    }
}

/// The total number of nodes in a sequence of trees.
pub open spec fn forest_size(ts: Seq<SpecTree>) -> nat
    decreases ts,
{
    if ts.len() == 0 {
        0
    } else {
        tree_size(ts[0]) + forest_size(ts.drop_first())
    }
}

/// Every tree counts at least one node.
pub proof fn lemma_tree_size_pos(t: SpecTree)
    ensures
        tree_size(t) >= 1,
{
}

/// Dropping `n` leading trees shrinks a forest by at least `n` nodes.
pub proof fn lemma_forest_size_skip(ts: Seq<SpecTree>, n: int)
    requires
        0 <= n <= ts.len(),
    ensures
        forest_size(ts.subrange(n, ts.len() as int)) + n <= forest_size(ts),
    decreases n,
{
    if n == 0 {
        assert(ts.subrange(0, ts.len() as int) =~= ts);
    } else {
        lemma_tree_size_pos(ts[0]);
        assert(ts.subrange(n, ts.len() as int) =~= ts.drop_first().subrange(
            n - 1,
            ts.drop_first().len() as int,
        ));
        lemma_forest_size_skip(ts.drop_first(), n - 1);
    }
}

/// Location well-formedness of a tree that starts at character offset
/// `start`: every token's span is exactly its text, and every delimited
/// node's span covers its open marker, all its children, and, when it is
/// closed, its close marker.
pub open spec fn tree_wf(t: SpecTree, start: nat) -> bool
    decreases t,
{
    match t {
        SpecTree::Token(tok) => tok.location.offset == start && tok.location.len == tok.text.len(),
        SpecTree::Delimited(d, children, loc, closed) => {
            &&& loc.offset == start
            &&& loc.len == tree_text(t).len()
            &&& forest_wf(children, start + d.open.len())
        },
        SpecTree::Group(children) => forest_wf(children, start),
        SpecTree::Error(_) => true,
        SpecTree::Empty => true,
    }
}

/// Location well-formedness of consecutive trees starting at `start`.
pub open spec fn forest_wf(ts: Seq<SpecTree>, start: nat) -> bool
    decreases ts,
{
    if ts.len() == 0 {
        true
    } else {
        tree_wf(ts[0], start) && forest_wf(ts.drop_first(), start + tree_text(ts[0]).len())
    }
}

/// A tree as the lexer produces it: only tokens and delimited nodes, no
/// groups, error markers or empty trees.
pub open spec fn tree_lexed(t: SpecTree) -> bool
    decreases t,
{
    match t {
        SpecTree::Token(_) => true,
        SpecTree::Delimited(_, children, _, _) => forest_lexed(children),
        _ => false,
    }
}

/// Every tree of the sequence is as the lexer produces it.
pub open spec fn forest_lexed(ts: Seq<SpecTree>) -> bool
    decreases ts,
{
    if ts.len() == 0 {
        true
    } else {
        tree_lexed(ts[0]) && forest_lexed(ts.drop_first())
    }
}

/// Appending a tree extends the concatenated text on the right.
pub proof fn lemma_forest_text_push(ts: Seq<SpecTree>, t: SpecTree)
    ensures
        forest_text(ts.push(t)) == forest_text(ts) + tree_text(t),
    decreases ts,
{
    let p = ts.push(t);
    assert(p[0] == if ts.len() == 0 { t } else { ts[0] });
    if ts.len() == 0 {
        assert(p.drop_first() =~= Seq::<SpecTree>::empty());
        assert(forest_text(p) == tree_text(t) + forest_text(Seq::<SpecTree>::empty()));
        assert(forest_text(p) =~= forest_text(ts) + tree_text(t));
    } else {
        assert(p.drop_first() =~= ts.drop_first().push(t));
        lemma_forest_text_push(ts.drop_first(), t);
        assert(forest_text(p) == tree_text(ts[0]) + (forest_text(ts.drop_first()) + tree_text(t)));
        assert(forest_text(p) =~= forest_text(ts) + tree_text(t));
    }
}

/// Appending a well-formed tree keeps a forest well-formed.
pub proof fn lemma_forest_wf_push(ts: Seq<SpecTree>, t: SpecTree, start: nat)
    requires
        forest_wf(ts, start),
        tree_wf(t, start + forest_text(ts).len()),
    ensures
        forest_wf(ts.push(t), start),
    decreases ts,
{
    let p = ts.push(t);
    assert(p[0] == if ts.len() == 0 { t } else { ts[0] });
    if ts.len() == 0 {
        assert(p.drop_first() =~= Seq::<SpecTree>::empty());
        assert(forest_text(ts) == Seq::<char>::empty());
        assert(tree_wf(p[0], start));
        assert(forest_wf(p.drop_first(), start + tree_text(p[0]).len()));
        assert(forest_wf(p, start));
    } else {
        assert(p.drop_first() =~= ts.drop_first().push(t));
        assert(forest_text(ts) == tree_text(ts[0]) + forest_text(ts.drop_first()));
        lemma_forest_wf_push(ts.drop_first(), t, start + tree_text(ts[0]).len());
        assert(forest_wf(p.drop_first(), start + tree_text(p[0]).len()));
        assert(tree_wf(p[0], start));
        assert(forest_wf(p, start));
    }
}

/// Appending a lexer-shaped tree keeps a forest lexer-shaped.
pub proof fn lemma_forest_lexed_push(ts: Seq<SpecTree>, t: SpecTree)
    requires
        forest_lexed(ts),
        tree_lexed(t),
    ensures
        forest_lexed(ts.push(t)),
    decreases ts,
{
    let p = ts.push(t);
    assert(p[0] == if ts.len() == 0 { t } else { ts[0] });
    if ts.len() == 0 {
        assert(p.drop_first() =~= Seq::<SpecTree>::empty());
        assert(forest_lexed(p.drop_first()));
        assert(forest_lexed(p));
    } else {
        assert(p.drop_first() =~= ts.drop_first().push(t));
        lemma_forest_lexed_push(ts.drop_first(), t);
        assert(forest_lexed(p.drop_first()));
        assert(forest_lexed(p));
    }
}

/// Whether `prefix` is a prefix of `s`.
pub open spec fn spec_starts_with(s: Seq<char>, prefix: Seq<char>) -> bool {
    prefix.len() <= s.len() && s.subrange(0, prefix.len() as int) == prefix
}

/// Whether the text `s` begins with `prefix`.
pub fn str_starts_with(s: &str, prefix: &str) -> (r: bool)
    ensures
        r == spec_starts_with(s@, prefix@),
{
    let n = s.unicode_len();
    let m = prefix.unicode_len();
    if m > n {
        return false;
    }
    let mut i: usize = 0;
    while i < m
        invariant
            i <= m,
            m <= n,
            m == prefix@.len(),
            n == s@.len(),
            forall|j: int| 0 <= j < i ==> s@[j] == prefix@[j],
        decreases m - i,
    {
        if s.get_char(i) != prefix.get_char(i) {
            proof {
                assert(s@.subrange(0, m as int)[i as int] == s@[i as int]);
            }
            return false;
        }
        i = i + 1;
    }
    proof {
        assert(s@.subrange(0, m as int) =~= prefix@);
    }
    true
}

/// Whether two texts hold the same characters.
pub fn str_eq(a: &str, b: &str) -> (r: bool)
    ensures
        r == (a@ == b@),
{
    if a.unicode_len() != b.unicode_len() {
        return false;
    }
    let r = str_starts_with(a, b);
    proof {
        if r {
            assert(a@.subrange(0, b@.len() as int) =~= a@);
        }
        if a@ == b@ {
            assert(a@.subrange(0, b@.len() as int) =~= b@);
        }
    }
    r
}

/// The length of the longest prefix of `s` whose characters all satisfy `p`.
pub open spec fn run_len(s: Seq<char>, p: spec_fn(char) -> bool) -> nat
    decreases s,
{
    if s.len() == 0 || !p(s[0]) {
        0
    } else {
        1 + run_len(s.drop_first(), p)
    }
}

/// A run never exceeds the text.
pub proof fn lemma_run_len_le(s: Seq<char>, p: spec_fn(char) -> bool)
    ensures
        run_len(s, p) <= s.len(),
    decreases s,
{
    if s.len() > 0 && p(s[0]) {
        lemma_run_len_le(s.drop_first(), p);
    }
}

/// A scan that stops at the first character that fails `p` has measured
/// exactly `run_len`.
pub proof fn lemma_run_len_scan(s: Seq<char>, p: spec_fn(char) -> bool, i: nat)
    requires
        i <= s.len(),
        forall|j: int| 0 <= j < i ==> p(s[j]),
        i == s.len() || !p(s[i as int]),
    ensures
        run_len(s, p) == i,
    decreases i,
{
    if i == 0 {
        assert(s.len() == 0 || !p(s[0]));
    } else {
        assert(p(s[0]));
        let d = s.drop_first();
        assert forall|j: int| 0 <= j < i - 1 implies p(d[j]) by {
            assert(d[j] == s[j + 1]);
        }
        if i < s.len() {
            assert(d[i - 1] == s[i as int]);
        }
        lemma_run_len_scan(d, p, (i - 1) as nat);
    }
}

/// Every span of the tree — tokens and delimited nodes alike — ends at or
/// before `limit`.
pub open spec fn tree_spans_within(t: SpecTree, limit: nat) -> bool
    decreases t,
{
    match t {
        SpecTree::Token(tok) => tok.location.offset + tok.location.len <= limit,
        SpecTree::Delimited(_, children, loc, _) => loc.offset + loc.len <= limit
            && forest_spans_within(children, limit),
        SpecTree::Group(children) => forest_spans_within(children, limit),
        _ => true,
    }
}

/// Every span of every tree ends at or before `limit`.
pub open spec fn forest_spans_within(ts: Seq<SpecTree>, limit: nat) -> bool
    decreases ts,
{
    if ts.len() == 0 {
        true
    } else {
        tree_spans_within(ts[0], limit) && forest_spans_within(ts.drop_first(), limit)
    }
}

/// A span bound loosens.
pub proof fn lemma_spans_within_mono(ts: Seq<SpecTree>, a: nat, b: nat)
    requires
        forest_spans_within(ts, a),
        a <= b,
    ensures
        forest_spans_within(ts, b),
    decreases ts,
{
    if ts.len() > 0 {
        lemma_tree_spans_within_mono(ts[0], a, b);
        lemma_spans_within_mono(ts.drop_first(), a, b);
    }
}

proof fn lemma_tree_spans_within_mono(t: SpecTree, a: nat, b: nat)
    requires
        tree_spans_within(t, a),
        a <= b,
    ensures
        tree_spans_within(t, b),
    decreases t,
{
    match t {
        SpecTree::Delimited(_, children, _, _) => {
            lemma_spans_within_mono(children, a, b);
        },
        SpecTree::Group(children) => {
            lemma_spans_within_mono(children, a, b);
        },
        _ => {},
    }
}

/// A well-formed forest starting at `start` keeps every span — even the
/// span of a delimited node whose close marker never appeared — within the
/// end of its own text: no span extends past the input's end.
pub proof fn lemma_wf_spans_bounded(ts: Seq<SpecTree>, start: nat)
    requires
        forest_wf(ts, start),
    ensures
        forest_spans_within(ts, start + forest_text(ts).len()),
    decreases ts,
{
    if ts.len() > 0 {
        lemma_tree_wf_spans_bounded(ts[0], start);
        lemma_wf_spans_bounded(ts.drop_first(), start + tree_text(ts[0]).len());
        lemma_tree_spans_within_mono(
            ts[0],
            start + tree_text(ts[0]).len(),
            start + forest_text(ts).len(),
        );
        lemma_spans_within_mono(
            ts.drop_first(),
            start + tree_text(ts[0]).len() + forest_text(ts.drop_first()).len(),
            start + forest_text(ts).len(),
        );
    }
}

proof fn lemma_tree_wf_spans_bounded(t: SpecTree, start: nat)
    requires
        tree_wf(t, start),
    ensures
        tree_spans_within(t, start + tree_text(t).len()),
    decreases t,
{
    match t {
        SpecTree::Delimited(d, children, loc, closed) => {
            lemma_wf_spans_bounded(children, start + d.open.len());
            lemma_spans_within_mono(
                children,
                start + d.open.len() + forest_text(children).len(),
                start + tree_text(t).len(),
            );
        },
        SpecTree::Group(children) => {
            lemma_wf_spans_bounded(children, start);
            lemma_spans_within_mono(
                children,
                start + forest_text(children).len(),
                start + tree_text(t).len(),
            );
        },
        _ => {},
    }
}

/// A cursor pointing to a specific position in the input string.
/// Used by the lexer to track progress. `offset` counts the characters
/// already consumed; `rest` is the text that remains.
#[derive(Debug, Clone, Copy)]
pub struct Cursor<'a> {
    pub rest: &'a str,
    pub offset: usize,
}

impl<'a> Cursor<'a> {
    pub fn new(input: &'a str) -> (r: Self)
        ensures
            r.rest@ == input@,
            r.offset == 0,
    {
        Self { rest: input, offset: 0 }
    }

    /// Advance past `amt` characters.
    pub fn advance(&self, amt: usize) -> (r: Self)
        requires
            amt <= self.rest@.len(),
            self.offset + amt <= usize::MAX,
        ensures
            r.rest@ == self.rest@.subrange(amt as int, self.rest@.len() as int),
            r.offset == self.offset + amt,
    {
        let n = self.rest.unicode_len();
        Self {
            rest: self.rest.substring_char(amt, n),
            offset: self.offset + amt,
        }
    }
}

/// A stream of token trees: the input to the parser and the shapes.
/// A lightweight slice over a forest.
#[derive(Debug, Clone, Copy)]
pub struct TokenStream<'a> {
    pub trees: &'a [TokenTree],
}

impl<'a> TokenStream<'a> {
    pub fn new(trees: &'a [TokenTree]) -> (r: Self)
        ensures
            r.trees@ == trees@,
    {
        Self { trees }
    }

    pub fn is_empty(&self) -> (r: bool)
        ensures
            r == (self.trees@.len() == 0),
    {
        self.trees.is_empty()
    }

    pub fn first(&self) -> (r: Option<&'a TokenTree>)
        ensures
            match r {
                Some(t) => self.trees@.len() > 0 && *t == self.trees@[0],
                None => self.trees@.len() == 0,
            },
    {
        self.trees.first()
    }

    /// The stream after the first `n` trees.
    pub fn advance(&self, n: usize) -> (r: Self)
        requires
            n <= self.trees@.len(),
        ensures
            r.trees@ == self.trees@.subrange(n as int, self.trees@.len() as int),
    {
        Self { trees: &self.trees[n..self.trees.len()] }
    }
}

} // verus!
