//! The incremental engine: immutable, position-independent ("green") trees,
//! transient position-aware ("red") views, and edit application that
//! re-lexes only the smallest delimited region containing the edit.

use vstd::prelude::*;

use crate::atom::{AtomKind, SpecKind};
use crate::language::{Delimiter, Language, SpecDelimiter};
use crate::lexer::lex;
use crate::token::{
    forest_text, tree_text, tree_view, trees_view, SpecTree, TokenTree,
};

verus! {

/// A "green" token: it knows its text and kind, but not its absolute
/// position.
#[derive(Debug, Clone, PartialEq)]
pub struct GreenToken {
    pub kind: AtomKind,
    pub text: String,
}

/// A "green" tree node: immutable, position-independent structure. An
/// edited document shares the unaffected subtrees of its previous version.
#[derive(Debug, PartialEq)]
pub enum GreenTree {
    Token(GreenToken),
    Delimited { delimiter: Delimiter, children: Vec<GreenTree>, closed: bool },
    Group(Vec<GreenTree>),
    Empty,
}

/// The mathematical value of a [`GreenTree`].
pub enum SpecGreen {
    Token(SpecKind, Seq<char>),
    Delimited(SpecDelimiter, Seq<SpecGreen>, bool),
    Group(Seq<SpecGreen>),
    Empty,
}

/// The mathematical value of a green tree.
pub open spec fn green_view(t: GreenTree) -> SpecGreen
    decreases t,
{
    match t {
        GreenTree::Token(tok) => SpecGreen::Token(tok.kind@, tok.text@),
        GreenTree::Delimited { delimiter, children, closed } => SpecGreen::Delimited(
            delimiter@,
            greens_view(children@),
            closed,
        ),
        GreenTree::Group(children) => SpecGreen::Group(greens_view(children@)),
        GreenTree::Empty => SpecGreen::Empty,
    }
}

/// The mathematical values of a sequence of green trees.
pub open spec fn greens_view(ts: Seq<GreenTree>) -> Seq<SpecGreen>
    decreases ts,
{
    if ts.len() == 0 {
        Seq::empty()
    } else {
        seq![green_view(ts[0])] + greens_view(ts.drop_first())
    }
}

/// `greens_view` maps each tree to its view, position by position.
pub proof fn lemma_greens_view_index(ts: Seq<GreenTree>)
    ensures
        greens_view(ts).len() == ts.len(),
        forall|i: int| 0 <= i < ts.len() ==> greens_view(ts)[i] == green_view(ts[i]),
    decreases ts,
{
    if ts.len() > 0 {
        lemma_greens_view_index(ts.drop_first());
        assert forall|i: int| 0 <= i < ts.len() implies greens_view(ts)[i] == green_view(
            ts[i],
        ) by {
            if i > 0 {
                assert(greens_view(ts)[i] == greens_view(ts.drop_first())[i - 1]);
                assert(ts.drop_first()[i - 1] == ts[i]);
            }
        }
    }
}

impl View for GreenTree {
    type V = SpecGreen;

    open spec fn view(&self) -> SpecGreen {
        green_view(*self)
    }
}

impl DeepView for GreenTree {
    type V = SpecGreen;

    open spec fn deep_view(&self) -> SpecGreen {
        self.view()
    }
}

/// The text a green node stands for: its token text, or its delimiter
/// markers around its children's text. An unclosed delimited node
/// contributes its open marker only.
pub open spec fn green_text(g: SpecGreen) -> Seq<char>
    decreases g,
{
    match g {
        SpecGreen::Token(_, text) => text,
        SpecGreen::Delimited(d, children, closed) => if closed {
            d.open + greens_text(children) + d.close
        } else {
            d.open + greens_text(children)
        },
        SpecGreen::Group(children) => greens_text(children),
        SpecGreen::Empty => Seq::empty(),
    }
}

/// The concatenated text of a sequence of green nodes.
pub open spec fn greens_text(ts: Seq<SpecGreen>) -> Seq<char>
    decreases ts,
{
    if ts.len() == 0 {
        Seq::empty()
    } else {
        green_text(ts[0]) + greens_text(ts.drop_first())
    }
}

/// The text of a sequence splits at any position.
pub proof fn lemma_greens_text_split(ts: Seq<SpecGreen>, i: int)
    requires
        0 <= i <= ts.len(),
    ensures
        greens_text(ts) == greens_text(ts.subrange(0, i)) + greens_text(
            ts.subrange(i, ts.len() as int),
        ),
    decreases i,
{
    if i == 0 {
        assert(ts.subrange(0, 0) =~= Seq::<SpecGreen>::empty());
        assert(ts.subrange(0, ts.len() as int) =~= ts);
        assert(greens_text(ts) =~= greens_text(ts.subrange(0, 0)) + greens_text(
            ts.subrange(0, ts.len() as int),
        ));
    } else {
        let head = ts.subrange(0, i);
        assert(head[0] == ts[0]);
        assert(head.drop_first() =~= ts.drop_first().subrange(0, i - 1));
        assert(ts.subrange(i, ts.len() as int) =~= ts.drop_first().subrange(
            i - 1,
            ts.drop_first().len() as int,
        ));
        lemma_greens_text_split(ts.drop_first(), i - 1);
        assert(greens_text(ts) =~= greens_text(head) + greens_text(
            ts.subrange(i, ts.len() as int),
        ));
    }
}

/// The cumulative text length of the node: pure structural information,
/// recomputed from children instead of stored.
impl GreenTree {
    pub fn width(&self) -> (r: usize)
        requires
            green_text(self@).len() <= usize::MAX,
        ensures
            r == green_text(self@).len(),
        decreases *self,
    {
        match self {
            GreenTree::Token(t) => t.width(),
            GreenTree::Delimited { delimiter, children, closed } => {
                let open_len = delimiter.open.unicode_len();
                let close_len = delimiter.close.unicode_len();
                let base = if *closed {
                    open_len + close_len
                } else {
                    open_len
                };
                proof {
                    lemma_greens_view_index(children@);
                }
                base + greens_width(children, Ghost(green_text(self@).len() - base))
            },
            GreenTree::Group(children) => {
                proof {
                    lemma_greens_view_index(children@);
                }
                greens_width(children, Ghost(green_text(self@).len() as int))
            },
            GreenTree::Empty => 0,
        }
    }

    /// Reconstructs the full text of this node.
    pub fn text(&self) -> (r: String)
        ensures
            r@ == green_text(self@),
        decreases *self,
    {
        match self {
            GreenTree::Token(t) => t.text.clone(),
            GreenTree::Delimited { delimiter, children, closed } => {
                let mut s = delimiter.open.to_owned();
                append_greens_text(&mut s, children);
                if *closed {
                    s.append(delimiter.close);
                }
                s
            },
            GreenTree::Group(children) => {
                let mut s = String::new();
                append_greens_text(&mut s, children);
                proof {
                    assert(s@ =~= green_text(self@));
                }
                s
            },
            GreenTree::Empty => String::new(),
        }
    }

    /// A copy of the tree, equal to the original at the level of views.
    pub fn duplicate(&self) -> (r: GreenTree)
        ensures
            r@ == self@,
        decreases *self,
    {
        match self {
            GreenTree::Token(t) => GreenTree::Token(
                GreenToken { kind: t.kind.duplicate(), text: t.text.clone() },
            ),
            GreenTree::Delimited { delimiter, children, closed } => {
                let new_children = duplicate_greens(children);
                proof {
                    lemma_greens_view_pointwise(children@, new_children@);
                }
                GreenTree::Delimited {
                    delimiter: *delimiter,
                    children: new_children,
                    closed: *closed,
                }
            },
            GreenTree::Group(children) => {
                let new_children = duplicate_greens(children);
                proof {
                    lemma_greens_view_pointwise(children@, new_children@);
                }
                GreenTree::Group(new_children)
            },
            GreenTree::Empty => GreenTree::Empty,
        }
    }

    /// Converts a lexed tree (with absolute offsets) to a green tree.
    pub fn from_token_tree(tt: &TokenTree) -> (r: Self)
        ensures
            r@ == spec_from_tree(tt@),
        decreases *tt,
    {
        match tt {
            TokenTree::Token(t) => GreenTree::Token(
                GreenToken { kind: t.kind.duplicate(), text: t.text.clone() },
            ),
            TokenTree::Delimited(d, children, _, closed) => {
                let new_children = from_token_trees(children);
                proof {
                    lemma_from_trees_pointwise(children@, new_children@);
                }
                GreenTree::Delimited {
                    delimiter: *d,
                    children: new_children,
                    closed: *closed,
                }
            },
            TokenTree::Group(children) => {
                let new_children = from_token_trees(children);
                proof {
                    lemma_from_trees_pointwise(children@, new_children@);
                }
                GreenTree::Group(new_children)
            },
            TokenTree::Error(_) => GreenTree::Empty,
            TokenTree::Empty => GreenTree::Empty,
        }
    }

    /// Converts a whole lexed forest to one green group node.
    pub fn from_forest(trees: &Vec<TokenTree>) -> (r: Self)
        ensures
            r@ == SpecGreen::Group(spec_from_trees(trees_view(trees@))),
    {
        let children = from_token_trees(trees);
        proof {
            crate::token::lemma_trees_view_index(trees@);
            lemma_from_trees_pointwise(trees@, children@);
        }
        GreenTree::Group(children)
    }
}

impl GreenToken {
    pub fn width(&self) -> (r: usize)
        ensures
            r == self.text@.len(),
    {
        self.text.as_str().unicode_len()
    }
}

/// The green value of a lexed tree: offsets are dropped, error markers
/// become empty nodes, everything else keeps its shape.
pub open spec fn spec_from_tree(t: SpecTree) -> SpecGreen
    decreases t,
{
    match t {
        SpecTree::Token(tok) => SpecGreen::Token(tok.kind, tok.text),
        SpecTree::Delimited(d, children, _, closed) => SpecGreen::Delimited(
            d,
            spec_from_trees(children),
            closed,
        ),
        SpecTree::Group(children) => SpecGreen::Group(spec_from_trees(children)),
        SpecTree::Error(_) => SpecGreen::Empty,
        SpecTree::Empty => SpecGreen::Empty,
    }
}

/// The green values of a sequence of lexed trees.
pub open spec fn spec_from_trees(ts: Seq<SpecTree>) -> Seq<SpecGreen>
    decreases ts,
{
    if ts.len() == 0 {
        Seq::empty()
    } else {
        seq![spec_from_tree(ts[0])] + spec_from_trees(ts.drop_first())
    }
}

/// `spec_from_trees` converts position by position.
pub proof fn lemma_spec_from_trees_index(ts: Seq<SpecTree>)
    ensures
        spec_from_trees(ts).len() == ts.len(),
        forall|i: int| 0 <= i < ts.len() ==> spec_from_trees(ts)[i] == spec_from_tree(ts[i]),
    decreases ts,
{
    if ts.len() > 0 {
        lemma_spec_from_trees_index(ts.drop_first());
        assert forall|i: int| 0 <= i < ts.len() implies spec_from_trees(ts)[i] == spec_from_tree(
            ts[i],
        ) by {
            if i > 0 {
                assert(spec_from_trees(ts)[i] == spec_from_trees(ts.drop_first())[i - 1]);
                assert(ts.drop_first()[i - 1] == ts[i]);
            }
        }
    }
}

/// Dropping offsets keeps the text: a green tree converted from a lexed
/// tree reconstructs exactly the lexed tree's text.
pub proof fn lemma_from_tree_text(t: SpecTree)
    ensures
        green_text(spec_from_tree(t)) == tree_text(t),
    decreases t,
{
    match t {
        SpecTree::Delimited(d, children, _, closed) => {
            lemma_from_trees_text(children);
        },
        SpecTree::Group(children) => {
            lemma_from_trees_text(children);
        },
        _ => {},
    }
}

/// Dropping offsets keeps the text of a whole forest.
pub proof fn lemma_from_trees_text(ts: Seq<SpecTree>)
    ensures
        greens_text(spec_from_trees(ts)) == forest_text(ts),
    decreases ts,
{
    if ts.len() > 0 {
        lemma_from_tree_text(ts[0]);
        lemma_from_trees_text(ts.drop_first());
        assert(spec_from_trees(ts)[0] == spec_from_tree(ts[0]));
        assert(spec_from_trees(ts).drop_first() =~= spec_from_trees(ts.drop_first()));
    }
}

/// Edit round-trip: the green tree built from a lexed forest reconstructs
/// the forest's text exactly. Since the lexer reconstructs its input, the
/// green tree of a re-lexed edited document reconstructs the edited text.
pub proof fn lemma_edit_round_trip(ts: Seq<SpecTree>, edited: Seq<char>)
    requires
        forest_text(ts) == edited,
    ensures
        green_text(SpecGreen::Group(spec_from_trees(ts))) == edited,
{
    lemma_from_trees_text(ts);
}

/// Copies of all the trees, equal to the originals at the level of views.
pub fn duplicate_greens(ts: &Vec<GreenTree>) -> (r: Vec<GreenTree>)
    ensures
        r@.len() == ts@.len(),
        forall|i: int| 0 <= i < ts@.len() ==> (#[trigger] r@[i])@ == ts@[i]@,
    decreases *ts,
{
    let mut r: Vec<GreenTree> = Vec::new();
    let mut i: usize = 0;
    while i < ts.len()
        invariant
            i <= ts@.len(),
            r@.len() == i,
            forall|j: int| 0 <= j < i ==> (#[trigger] r@[j])@ == ts@[j]@,
        decreases ts@.len() - i,
    {
        r.push(ts[i].duplicate());
        i = i + 1;
    }
    r
}

/// Green conversions of all the trees, in order.
pub fn from_token_trees(ts: &Vec<TokenTree>) -> (r: Vec<GreenTree>)
    ensures
        r@.len() == ts@.len(),
        forall|i: int| 0 <= i < ts@.len() ==> (#[trigger] r@[i])@ == spec_from_tree(ts@[i]@),
    decreases *ts,
{
    let mut r: Vec<GreenTree> = Vec::new();
    let mut i: usize = 0;
    while i < ts.len()
        invariant
            i <= ts@.len(),
            r@.len() == i,
            forall|j: int| 0 <= j < i ==> (#[trigger] r@[j])@ == spec_from_tree(ts@[j]@),
        decreases ts@.len() - i,
    {
        r.push(GreenTree::from_token_tree(&ts[i]));
        i = i + 1;
    }
    r
}

/// Pointwise equal views make equal sequence views.
proof fn lemma_greens_view_pointwise(a: Seq<GreenTree>, b: Seq<GreenTree>)
    requires
        a.len() == b.len(),
        forall|i: int| 0 <= i < a.len() ==> (#[trigger] b[i])@ == a[i]@,
    ensures
        greens_view(a) == greens_view(b),
{
    lemma_greens_view_index(a);
    lemma_greens_view_index(b);
    assert(greens_view(a) =~= greens_view(b));
}

/// Pointwise conversion makes the converted sequence view.
proof fn lemma_from_trees_pointwise(a: Seq<TokenTree>, b: Seq<GreenTree>)
    requires
        a.len() == b.len(),
        forall|i: int| 0 <= i < a.len() ==> (#[trigger] b[i])@ == spec_from_tree(a[i]@),
    ensures
        greens_view(b) == spec_from_trees(trees_view(a)),
{
    crate::token::lemma_trees_view_index(a);
    lemma_greens_view_index(b);
    lemma_spec_from_trees_index(trees_view(a));
    assert(greens_view(b) =~= spec_from_trees(trees_view(a)));
}

/// The total width of a sequence of green trees. The caller supplies the
/// (ghost) knowledge that the total fits the machine word.
fn greens_width(ts: &Vec<GreenTree>, total: Ghost<int>) -> (r: usize)
    requires
        greens_text(greens_view(ts@)).len() <= total@ <= usize::MAX,
    ensures
        r == greens_text(greens_view(ts@)).len(),
    decreases *ts,
{
    let ghost views = greens_view(ts@);
    proof {
        lemma_greens_view_index(ts@);
    }
    let mut acc: usize = 0;
    let mut i: usize = 0;
    while i < ts.len()
        invariant
            i <= ts@.len(),
            views == greens_view(ts@),
            views.len() == ts@.len(),
            forall|j: int| 0 <= j < ts@.len() ==> views[j] == (#[trigger] ts@[j])@,
            greens_text(views).len() <= total@ <= usize::MAX,
            acc == greens_text(views.subrange(0, i as int)).len(),
        decreases ts@.len() - i,
    {
        proof {
            lemma_greens_text_split(views, i as int);
            lemma_greens_text_split(views.subrange(i as int, views.len() as int), 1);
            assert(views.subrange(i as int, views.len() as int).subrange(0, 1) =~= seq![
                views[i as int],
            ]);
            assert(views.subrange(i as int, views.len() as int).subrange(
                1,
                views.len() - i,
            ) =~= views.subrange(i + 1, views.len() as int));
            assert(seq![views[i as int]].drop_first() =~= Seq::<SpecGreen>::empty());
            assert(seq![views[i as int]][0] == views[i as int]);
            assert(greens_text(Seq::<SpecGreen>::empty()) =~= Seq::<char>::empty());
            assert(greens_text(seq![views[i as int]]) =~= green_text(views[i as int]));
            lemma_greens_text_split(views.subrange(0, i + 1 as int), i as int);
            assert(views.subrange(0, i + 1 as int).subrange(0, i as int) =~= views.subrange(
                0,
                i as int,
            ));
            assert(views.subrange(0, i + 1 as int).subrange(i as int, i + 1 as int) =~= seq![
                views[i as int],
            ]);
        }
        let w = ts[i].width();
        acc = acc + w;
        i = i + 1;
    }
    proof {
        assert(views.subrange(0, views.len() as int) =~= views);
    }
    acc
}

/// Whether a tree can absorb the replacement of `[start, end)`: some
/// delimited node's content range strictly contains it — reachable through
/// transparent groups, which only forward. A token or an empty node cannot
/// absorb anything.
pub open spec fn spec_absorbs(g: SpecGreen, offset: int, start: int, end: int) -> bool
    decreases g, 1int,
{
    match g {
        SpecGreen::Delimited(d, _, closed) => {
            let content_start = offset + d.open.len();
            let content_end = offset + green_text(g).len() - (if closed {
                d.close.len() as int
            } else {
                0
            });
            start >= content_start && end <= content_end
        },
        SpecGreen::Group(cs) => spec_absorbs_children(cs, offset, start, end),
        _ => false,
    }
}

/// Whether some child, laid out left to right from `offset`, fully contains
/// the edit range and can absorb it.
pub open spec fn spec_absorbs_children(
    cs: Seq<SpecGreen>,
    offset: int,
    start: int,
    end: int,
) -> bool
    decreases cs, 0int,
{
    if cs.len() == 0 {
        false
    } else {
        (start >= offset && end <= offset + green_text(cs[0]).len() && spec_absorbs(
            cs[0],
            offset,
            start,
            end,
        )) || spec_absorbs_children(cs.drop_first(), offset + green_text(cs[0]).len(), start, end)
    }
}

/// How a successful incremental re-lex relates the new tree to the old one:
/// a delimited node keeps its markers and its closure flag (only its
/// content is rebuilt), and a group keeps every child untouched except the
/// single one that absorbed the edit, which relates recursively.
pub open spec fn spec_localized(old: SpecGreen, new: SpecGreen, offset: int, start: int, end: int) -> bool
    decreases old, 1int,
{
    match old {
        SpecGreen::Delimited(d, _, closed) => new is Delimited && new->Delimited_0 == d
            && new->Delimited_2 == closed,
        SpecGreen::Group(cs) => new is Group && spec_localized_children(
            cs,
            new->Group_0,
            offset,
            start,
            end,
        ),
        _ => false,
    }
}

/// All children equal except the one containing the edit, which relates
/// recursively.
pub open spec fn spec_localized_children(
    old_cs: Seq<SpecGreen>,
    new_cs: Seq<SpecGreen>,
    offset: int,
    start: int,
    end: int,
) -> bool
    decreases old_cs, 0int,
{
    &&& old_cs.len() == new_cs.len()
    &&& if old_cs.len() == 0 {
        false
    } else {
        ||| (start >= offset && end <= offset + green_text(old_cs[0]).len() && spec_localized(
            old_cs[0],
            new_cs[0],
            offset,
            start,
            end,
        ) && new_cs.drop_first() == old_cs.drop_first())
        ||| (new_cs[0] == old_cs[0] && spec_localized_children(
            old_cs.drop_first(),
            new_cs.drop_first(),
            offset + green_text(old_cs[0]).len(),
            start,
            end,
        ))
    }
}

/// Replacing only the child at `i` — which contains the edit and relates
/// recursively — relates the whole child lists.
proof fn lemma_localized_at(
    old_cs: Seq<SpecGreen>,
    new_cs: Seq<SpecGreen>,
    offset: int,
    start: int,
    end: int,
    i: int,
)
    requires
        old_cs.len() == new_cs.len(),
        0 <= i < old_cs.len(),
        forall|j: int| 0 <= j < old_cs.len() && j != i ==> new_cs[j] == old_cs[j],
        start >= offset + greens_text(old_cs.subrange(0, i)).len(),
        end <= offset + greens_text(old_cs.subrange(0, i)).len() + green_text(old_cs[i]).len(),
        spec_localized(
            old_cs[i],
            new_cs[i],
            offset + greens_text(old_cs.subrange(0, i)).len(),
            start,
            end,
        ),
    ensures
        spec_localized_children(old_cs, new_cs, offset, start, end),
    decreases i,
{
    if i == 0 {
        assert(old_cs.subrange(0, 0) =~= Seq::<SpecGreen>::empty());
        assert(greens_text(Seq::<SpecGreen>::empty()) =~= Seq::<char>::empty());
        assert(new_cs.drop_first() =~= old_cs.drop_first());
    } else {
        assert(new_cs[0] == old_cs[0]);
        let od = old_cs.drop_first();
        let nd = new_cs.drop_first();
        assert forall|j: int| 0 <= j < od.len() && j != i - 1 implies nd[j] == od[j] by {
            assert(nd[j] == new_cs[j + 1]);
            assert(od[j] == old_cs[j + 1]);
        }
        assert(od.subrange(0, i - 1) =~= old_cs.subrange(1, i));
        lemma_greens_text_split(old_cs.subrange(0, i), 1);
        assert(old_cs.subrange(0, i).subrange(0, 1) =~= seq![old_cs[0]]);
        assert(seq![old_cs[0]].drop_first() =~= Seq::<SpecGreen>::empty());
        assert(seq![old_cs[0]][0] == old_cs[0]);
        assert(greens_text(seq![old_cs[0]]) =~= green_text(old_cs[0]));
        assert(old_cs.subrange(0, i).subrange(1, i) =~= old_cs.subrange(1, i));
        assert(od[i - 1] == old_cs[i]);
        assert(nd[i - 1] == new_cs[i]);
        lemma_localized_at(od, nd, offset + green_text(old_cs[0]).len(), start, end, i - 1);
    }
}

/// A single contiguous replacement: the characters in `start..end`
/// (exclusive of `end`) give way to `new_text`. Constructed by the editing
/// host, applied once, then discarded.
#[derive(Debug, Clone)]
pub struct TextEdit {
    pub start: usize,
    pub end: usize,
    pub new_text: String,
}

/// The text that applying a replacement of `start..end` by `new_text`
/// produces.
pub open spec fn spec_apply(start: int, end: int, new_text: Seq<char>, s: Seq<char>) -> Seq<char> {
    s.subrange(0, start) + new_text + s.subrange(end, s.len() as int)
}

impl TextEdit {
    /// Applies the edit to `original`: pure string surgery.
    pub fn apply(&self, original: &str) -> (r: String)
        requires
            self.start <= self.end <= original@.len(),
        ensures
            r@ == spec_apply(self.start as int, self.end as int, self.new_text@, original@),
    {
        let n = original.unicode_len();
        let mut s = original.substring_char(0, self.start).to_owned();
        s.append(self.new_text.as_str());
        s.append(original.substring_char(self.end, n));
        s
    }
}

/// The result of an incremental re-lex.
#[derive(Debug)]
pub enum RelexResult {
    /// The edit was absorbed by re-lexing a sub-tree.
    Success(GreenTree),
    /// The edit could not be isolated inside any delimited region; the
    /// caller must fall back to a full re-lex, which is always correct.
    Failed,
}

/// Replacing an edit that falls inside the middle piece of a three-piece
/// text edits only that piece.
proof fn lemma_apply_frame(
    a: int,
    b: int,
    new_text: Seq<char>,
    pre: Seq<char>,
    mid: Seq<char>,
    post: Seq<char>,
)
    requires
        pre.len() <= a <= b <= pre.len() + mid.len(),
    ensures
        spec_apply(a, b, new_text, pre + mid + post) == pre + spec_apply(
            a - pre.len(),
            b - pre.len(),
            new_text,
            mid,
        ) + post,
{
    let s = pre + mid + post;
    assert(s.subrange(0, a) =~= pre + mid.subrange(0, a - pre.len()));
    assert(s.subrange(b, s.len() as int) =~= mid.subrange(b - pre.len(), mid.len() as int)
        + post);
    assert(spec_apply(a, b, new_text, s) =~= pre + spec_apply(
        a - pre.len(),
        b - pre.len(),
        new_text,
        mid,
    ) + post);
}

/// Attempts to apply an edit to a green tree incrementally: the smallest
/// delimited region that strictly contains the edit re-lexes its own
/// content; everything outside it is kept. On success the new tree's text
/// is exactly the edited text.
pub fn incremental_relex(root: &GreenTree, edit: &TextEdit, language: &Language) -> (r:
    RelexResult)
    requires
        edit.start <= edit.end <= green_text(root@).len(),
        green_text(root@).len() <= usize::MAX,
    ensures
        (r is Success) == spec_absorbs(root@, 0, edit.start as int, edit.end as int),
        match r {
            RelexResult::Success(nt) => green_text(nt@) == spec_apply(
                edit.start as int,
                edit.end as int,
                edit.new_text@,
                green_text(root@),
            ) && spec_localized(root@, nt@, 0, edit.start as int, edit.end as int),
            RelexResult::Failed => true,
        },
{
    relex_recursive(root, 0, edit, language)
}

/// Walks the tree carrying the running absolute offset, looking for the
/// deepest node that can absorb the edit. A delimited node absorbs an edit
/// that falls strictly inside its content: first through a single child
/// that contains it, and otherwise by re-lexing its whole content. A group
/// only forwards; a token cannot absorb anything.
fn relex_recursive(node: &GreenTree, offset: usize, edit: &TextEdit, language: &Language) -> (r:
    RelexResult)
    requires
        offset + green_text(node@).len() <= usize::MAX,
    ensures
        (r is Success) == (edit.start <= edit.end && spec_absorbs(
            node@,
            offset as int,
            edit.start as int,
            edit.end as int,
        )),
        match r {
            RelexResult::Success(nt) => {
                &&& offset <= edit.start <= edit.end <= offset + green_text(node@).len()
                &&& green_text(nt@) == spec_apply(
                    edit.start - offset,
                    edit.end - offset,
                    edit.new_text@,
                    green_text(node@),
                )
                &&& spec_localized(node@, nt@, offset as int, edit.start as int, edit.end as int)
            },
            RelexResult::Failed => true,
        },
    decreases *node,
{
    if edit.end < edit.start {
        return RelexResult::Failed;
    }
    match node {
        GreenTree::Delimited { delimiter, children, closed } => {
            let ghost cv = greens_view(children@);
            let width = node.width();
            let node_end = offset + width;
            let open_len = delimiter.open.unicode_len();
            let close_len = delimiter.close.unicode_len();
            let content_start = offset + open_len;
            let content_end = if *closed {
                node_end - close_len
            } else {
                node_end
            };
            proof {
                assert(content_end - content_start == greens_text(cv).len());
                assert(spec_absorbs(node@, offset as int, edit.start as int, edit.end as int)
                    == (edit.start >= content_start && edit.end <= content_end));
            }
            if edit.start >= content_start && edit.end <= content_end {
                // Try to find a single child whose span fully contains the
                // edit and absorb it there, preferring minimal re-work.
                let by_child = relex_in_children(children, content_start, edit, language, true);
                let new_children = match by_child {
                    Some(nc) => nc,
                    None => {
                        // Either the edit spans multiple children or a
                        // child could not absorb it: re-lex the content of
                        // this block. The delimiter markers themselves are
                        // untouched, so this is still strictly smaller
                        // than a full re-lex.
                        let mut inner_text = String::new();
                        append_greens_text(&mut inner_text, children);
                        let rel = TextEdit {
                            start: edit.start - content_start,
                            end: edit.end - content_start,
                            new_text: edit.new_text.clone(),
                        };
                        let new_inner = rel.apply(inner_text.as_str());
                        let new_tokens = lex(new_inner.as_str(), language);
                        let fresh = from_token_trees(&new_tokens);
                        proof {
                            crate::token::lemma_trees_view_index(new_tokens@);
                            lemma_from_trees_pointwise(new_tokens@, fresh@);
                            lemma_from_trees_text(trees_view(new_tokens@));
                        }
                        fresh
                    },
                };
                // In either case the new content's text is the old content
                // with the edit applied; framing it between the untouched
                // markers edits the node's text.
                proof {
                    let d = node@->Delimited_0;
                    let post = if *closed {
                        d.close
                    } else {
                        Seq::<char>::empty()
                    };
                    assert(green_text(node@) =~= d.open + greens_text(cv) + post);
                    lemma_apply_frame(
                        edit.start - offset,
                        edit.end - offset,
                        edit.new_text@,
                        d.open,
                        greens_text(cv),
                        post,
                    );
                    assert(green_text(
                        green_view(
                            GreenTree::Delimited {
                                delimiter: *delimiter,
                                children: new_children,
                                closed: *closed,
                            },
                        ),
                    ) =~= d.open + greens_text(greens_view(new_children@)) + post);
                }
                let replacement = GreenTree::Delimited {
                    delimiter: *delimiter,
                    children: new_children,
                    closed: *closed,
                };
                proof {
                    assert(spec_localized(
                        node@,
                        replacement@,
                        offset as int,
                        edit.start as int,
                        edit.end as int,
                    ));
                }
                return RelexResult::Success(replacement);
            }
            // The edit touches or crosses a delimiter marker: this node
            // cannot absorb it; the caller retries one level up.
            RelexResult::Failed
        },
        GreenTree::Group(children) => {
            // A group has no markers of its own: it only forwards to a
            // child whose span fully contains the edit.
            match relex_in_children(children, offset, edit, language, false) {
                Some(new_children) => {
                    let replacement = GreenTree::Group(new_children);
                    proof {
                        assert(spec_localized(
                            node@,
                            replacement@,
                            offset as int,
                            edit.start as int,
                            edit.end as int,
                        ));
                    }
                    RelexResult::Success(replacement)
                },
                None => RelexResult::Failed,
            }
        },
        _ => {
            // A token cannot be partially re-lexed in isolation, and an
            // empty node covers no text: the search fails here.
            RelexResult::Failed
        },
    }
}

/// Scans the children for the first one whose span fully contains the edit
/// and lets it absorb the edit. On success the result is the same children
/// with only that child replaced. With `stop_on_fail` the scan gives up as
/// soon as a containing child fails; without it the scan moves on.
fn relex_in_children(
    children: &Vec<GreenTree>,
    base: usize,
    edit: &TextEdit,
    language: &Language,
    stop_on_fail: bool,
) -> (r: Option<Vec<GreenTree>>)
    requires
        base + greens_text(greens_view(children@)).len() <= usize::MAX,
        edit.start <= edit.end,
    ensures
        match r {
            Some(nc) => {
                &&& base <= edit.start <= edit.end <= base + greens_text(
                    greens_view(children@),
                ).len()
                &&& greens_text(greens_view(nc@)) == spec_apply(
                    edit.start - base,
                    edit.end - base,
                    edit.new_text@,
                    greens_text(greens_view(children@)),
                )
                &&& spec_absorbs_children(
                    greens_view(children@),
                    base as int,
                    edit.start as int,
                    edit.end as int,
                )
                &&& spec_localized_children(
                    greens_view(children@),
                    greens_view(nc@),
                    base as int,
                    edit.start as int,
                    edit.end as int,
                )
            },
            None => stop_on_fail || !spec_absorbs_children(
                greens_view(children@),
                base as int,
                edit.start as int,
                edit.end as int,
            ),
        },
    decreases *children,
{
    let ghost cv = greens_view(children@);
    proof {
        lemma_greens_view_index(children@);
        assert(cv.subrange(0, cv.len() as int) =~= cv);
    }
    let mut cco: usize = base;
    let mut i: usize = 0;
    while i < children.len()
        invariant
            i <= children@.len(),
            cv == greens_view(children@),
            cv.len() == children@.len(),
            forall|j: int| 0 <= j < children@.len() ==> cv[j] == (#[trigger] children@[j])@,
            cco == base + greens_text(cv.subrange(0, i as int)).len(),
            base + greens_text(cv).len() <= usize::MAX,
            edit.start <= edit.end,
            spec_absorbs_children(cv, base as int, edit.start as int, edit.end as int)
                == spec_absorbs_children(
                cv.subrange(i as int, cv.len() as int),
                cco as int,
                edit.start as int,
                edit.end as int,
            ),
        decreases children@.len() - i,
    {
        proof {
            lemma_greens_text_split(cv, i as int);
            lemma_greens_text_split(cv.subrange(i as int, cv.len() as int), 1);
            assert(cv.subrange(i as int, cv.len() as int).subrange(0, 1) =~= seq![cv[i as int]]);
            assert(seq![cv[i as int]].drop_first() =~= Seq::<SpecGreen>::empty());
            assert(seq![cv[i as int]][0] == cv[i as int]);
            assert(cv.subrange(i as int, cv.len() as int).subrange(1, cv.len() - i) =~=
                cv.subrange(i + 1, cv.len() as int));
            lemma_greens_text_split(cv.subrange(0, i + 1 as int), i as int);
            assert(cv.subrange(0, i + 1 as int).subrange(0, i as int) =~= cv.subrange(0, i as int));
            assert(cv.subrange(0, i + 1 as int).subrange(i as int, i + 1 as int) =~= seq![
                cv[i as int],
            ]);
        }
        let child_width = children[i].width();
        if edit.start >= cco && edit.end <= cco + child_width {
            match relex_recursive(&children[i], cco, edit, language) {
                RelexResult::Success(new_child) => {
                    let ghost ncv = new_child@;
                    let mut new_children = duplicate_greens(children);
                    new_children[i] = new_child;
                    proof {
                        lemma_greens_view_index(new_children@);
                        let nv = greens_view(new_children@);
                        assert(nv =~= cv.subrange(0, i as int) + seq![ncv] + cv.subrange(
                            i + 1,
                            cv.len() as int,
                        ));
                        lemma_greens_text_split(nv, i as int);
                        let tail = nv.subrange(i as int, nv.len() as int);
                        assert(nv.subrange(0, i as int) =~= cv.subrange(0, i as int));
                        lemma_greens_text_split(tail, 1);
                        assert(tail.subrange(0, 1) =~= seq![ncv]);
                        assert(tail.subrange(1, tail.len() as int) =~= cv.subrange(
                            i + 1,
                            cv.len() as int,
                        ));
                        assert(seq![ncv].drop_first() =~= Seq::<SpecGreen>::empty());
                        assert(seq![ncv][0] == ncv);
                        let pre = greens_text(cv.subrange(0, i as int));
                        let mid = green_text(cv[i as int]);
                        let post = greens_text(cv.subrange(i + 1, cv.len() as int));
                        assert(greens_text(cv) =~= pre + mid + post);
                        lemma_apply_frame(
                            edit.start - base,
                            edit.end - base,
                            edit.new_text@,
                            pre,
                            mid,
                            post,
                        );
                        assert(greens_text(nv) =~= pre + green_text(ncv) + post);
                        // The child absorbed the edit, so the list does.
                        assert(spec_absorbs_children(
                            cv.subrange(i as int, cv.len() as int),
                            cco as int,
                            edit.start as int,
                            edit.end as int,
                        ));
                        // Only that child changed, and it changed locally.
                        assert forall|j: int|
                            0 <= j < cv.len() && j != i implies nv[j] == cv[j] by {}
                        lemma_localized_at(
                            cv,
                            nv,
                            base as int,
                            edit.start as int,
                            edit.end as int,
                            i as int,
                        );
                    }
                    return Some(new_children);
                },
                RelexResult::Failed => {
                    if stop_on_fail {
                        return None;
                    }
                    proof {
                        assert(spec_absorbs_children(
                            cv.subrange(i as int, cv.len() as int),
                            cco as int,
                            edit.start as int,
                            edit.end as int,
                        ) == spec_absorbs_children(
                            cv.subrange(i + 1, cv.len() as int),
                            cco + child_width,
                            edit.start as int,
                            edit.end as int,
                        ));
                    }
                    cco = cco + child_width;
                    i = i + 1;
                },
            }
        } else {
            proof {
                assert(spec_absorbs_children(
                    cv.subrange(i as int, cv.len() as int),
                    cco as int,
                    edit.start as int,
                    edit.end as int,
                ) == spec_absorbs_children(
                    cv.subrange(i + 1, cv.len() as int),
                    cco + child_width,
                    edit.start as int,
                    edit.end as int,
                ));
            }
            cco = cco + child_width;
            i = i + 1;
        }
    }
    proof {
        assert(cv.subrange(cv.len() as int, cv.len() as int) =~= Seq::<SpecGreen>::empty());
    }
    None
}

/// A "red" node: a transient pair of a green node and the absolute offset
/// it sits at, computed on demand while walking a tree and never stored.
#[derive(Debug, Clone, Copy)]
pub struct RedNode<'a> {
    pub green: &'a GreenTree,
    pub offset: usize,
}

/// The children of a green node, empty for tokens and empty nodes.
pub open spec fn spec_green_children(g: SpecGreen) -> Seq<SpecGreen> {
    match g {
        SpecGreen::Delimited(_, cs, _) => cs,
        SpecGreen::Group(cs) => cs,
        _ => Seq::empty(),
    }
}

/// Where a node's first child starts: past the open marker of a delimited
/// node, at the node itself otherwise.
pub open spec fn spec_child_base(g: SpecGreen, off: int) -> int {
    match g {
        SpecGreen::Delimited(d, _, _) => off + d.open.len(),
        _ => off,
    }
}

/// The deepest node of `g` (sitting at `off`) whose span contains `target`:
/// the first child that contains it answers, and a node with no such child
/// answers itself. Outside the node's span there is no answer.
pub open spec fn spec_find_at(g: SpecGreen, off: int, target: int) -> Option<(SpecGreen, int)>
    decreases g, 1int,
{
    if !(off <= target < off + green_text(g).len()) {
        None
    } else {
        let inner = match g {
            SpecGreen::Delimited(d, cs, _) => spec_find_children(cs, off + d.open.len(), target),
            SpecGreen::Group(cs) => spec_find_children(cs, off, target),
            _ => None,
        };
        match inner {
            Some(x) => Some(x),
            None => Some((g, off)),
        }
    }
}

/// The answer of the first child (in order, starting at `off`) that has
/// one.
pub open spec fn spec_find_children(cs: Seq<SpecGreen>, off: int, target: int) -> Option<
    (SpecGreen, int),
>
    decreases cs, 0int,
{
    if cs.len() == 0 {
        None
    } else {
        match spec_find_at(cs[0], off, target) {
            Some(x) => Some(x),
            None => spec_find_children(cs.drop_first(), off + green_text(cs[0]).len(), target),
        }
    }
}

impl<'a> RedNode<'a> {
    pub fn new(green: &'a GreenTree, offset: usize) -> (r: Self)
        ensures
            r.green == green,
            r.offset == offset,
    {
        Self { green, offset }
    }

    /// The node's children paired with their absolute offsets, computed by
    /// accumulating widths left to right (past the open marker of a
    /// delimited node).
    pub fn children(&self) -> (r: Vec<RedNode<'a>>)
        requires
            self.offset + green_text(self.green@).len() <= usize::MAX,
        ensures
            r@.len() == spec_green_children(self.green@).len(),
            forall|i: int|
                0 <= i < r@.len() ==> (#[trigger] r@[i]).green@ == spec_green_children(
                    self.green@,
                )[i] && r@[i].offset == spec_child_base(self.green@, self.offset as int)
                    + greens_text(spec_green_children(self.green@).subrange(0, i)).len(),
    {
        let (green_children, base): (&'a Vec<GreenTree>, usize) = match self.green {
            GreenTree::Delimited { delimiter, children, .. } => (
                children,
                self.offset + delimiter.open.unicode_len(),
            ),
            GreenTree::Group(children) => (children, self.offset),
            _ => {
                return Vec::new();
            },
        };
        let ghost cv = spec_green_children(self.green@);
        proof {
            lemma_greens_view_index(green_children@);
        }
        let mut r: Vec<RedNode<'a>> = Vec::new();
        let mut cur: usize = base;
        let mut i: usize = 0;
        while i < green_children.len()
            invariant
                i <= green_children@.len(),
                cv == greens_view(green_children@),
                cv.len() == green_children@.len(),
                forall|j: int|
                    0 <= j < green_children@.len() ==> cv[j] == (#[trigger] green_children@[j])@,
                base + greens_text(cv).len() <= usize::MAX,
                cur == base + greens_text(cv.subrange(0, i as int)).len(),
                r@.len() == i,
                forall|j: int|
                    0 <= j < i ==> (#[trigger] r@[j]).green@ == cv[j] && r@[j].offset == base
                        + greens_text(cv.subrange(0, j)).len(),
            decreases green_children@.len() - i,
        {
            proof {
                lemma_greens_text_split(cv, i as int);
                lemma_greens_text_split(cv.subrange(i as int, cv.len() as int), 1);
                assert(cv.subrange(i as int, cv.len() as int).subrange(0, 1) =~= seq![
                    cv[i as int],
                ]);
                assert(seq![cv[i as int]].drop_first() =~= Seq::<SpecGreen>::empty());
                assert(seq![cv[i as int]][0] == cv[i as int]);
                assert(cv.subrange(i as int, cv.len() as int).subrange(1, cv.len() - i) =~=
                    cv.subrange(i + 1, cv.len() as int));
                lemma_greens_text_split(cv.subrange(0, i + 1 as int), i as int);
                assert(cv.subrange(0, i + 1 as int).subrange(0, i as int) =~= cv.subrange(
                    0,
                    i as int,
                ));
                assert(cv.subrange(0, i + 1 as int).subrange(i as int, i + 1 as int) =~= seq![
                    cv[i as int],
                ]);
            }
            let child = &green_children[i];
            let w = child.width();
            r.push(RedNode { green: child, offset: cur });
            cur = cur + w;
            i = i + 1;
        }
        r
    }

    /// The deepest node whose span contains `target`: descends into
    /// whichever child's span contains it, and answers itself when no
    /// child does. No answer when `target` lies outside this node.
    pub fn find_at_offset(&self, target: usize) -> (r: Option<RedNode<'a>>)
        requires
            self.offset + green_text(self.green@).len() <= usize::MAX,
        ensures
            match r {
                Some(rn) => spec_find_at(self.green@, self.offset as int, target as int) == Some(
                    (rn.green@, rn.offset as int),
                ) && rn.offset + green_text(rn.green@).len() <= usize::MAX,
                None => spec_find_at(self.green@, self.offset as int, target as int) is None,
            },
        decreases *self.green, 1int,
    {
        let width = self.green.width();
        if target < self.offset || target >= self.offset + width {
            return None;
        }
        let found = match self.green {
            GreenTree::Delimited { delimiter, children, .. } => {
                let base = self.offset + delimiter.open.unicode_len();
                proof {
                    lemma_greens_view_index(children@);
                    if self.green@->Delimited_2 {
                        assert(base + greens_text(greens_view(children@)).len() <= self.offset
                            + green_text(self.green@).len());
                    }
                }
                find_in_children(children, base, target)
            },
            GreenTree::Group(children) => find_in_children(children, self.offset, target),
            _ => None,
        };
        match found {
            Some(x) => Some(x),
            None => Some(RedNode { green: self.green, offset: self.offset }),
        }
    }
}

/// The first child (scanning left to right from `off`) whose span contains
/// `target`, resolved to its own deepest node.
fn find_in_children<'a>(children: &'a Vec<GreenTree>, off: usize, target: usize) -> (r: Option<
    RedNode<'a>,
>)
    requires
        off + greens_text(greens_view(children@)).len() <= usize::MAX,
    ensures
        match r {
            Some(rn) => spec_find_children(greens_view(children@), off as int, target as int)
                == Some((rn.green@, rn.offset as int)) && rn.offset + green_text(rn.green@).len()
                <= usize::MAX,
            None => spec_find_children(greens_view(children@), off as int, target as int) is None,
        },
    decreases *children, 0int,
{
    let ghost cv = greens_view(children@);
    proof {
        lemma_greens_view_index(children@);
        assert(cv.subrange(0, cv.len() as int) =~= cv);
        assert(cv.subrange(0, 0) =~= Seq::<SpecGreen>::empty());
    }
    let mut cur: usize = off;
    let mut i: usize = 0;
    while i < children.len()
        invariant
            i <= children@.len(),
            cv == greens_view(children@),
            cv.len() == children@.len(),
            forall|j: int| 0 <= j < children@.len() ==> cv[j] == (#[trigger] children@[j])@,
            off + greens_text(cv).len() <= usize::MAX,
            cur == off + greens_text(cv.subrange(0, i as int)).len(),
            spec_find_children(cv, off as int, target as int) == spec_find_children(
                cv.subrange(i as int, cv.len() as int),
                cur as int,
                target as int,
            ),
        decreases children@.len() - i,
    {
        proof {
            lemma_greens_text_split(cv, i as int);
            lemma_greens_text_split(cv.subrange(i as int, cv.len() as int), 1);
            assert(cv.subrange(i as int, cv.len() as int).subrange(0, 1) =~= seq![cv[i as int]]);
            assert(seq![cv[i as int]].drop_first() =~= Seq::<SpecGreen>::empty());
            assert(seq![cv[i as int]][0] == cv[i as int]);
            assert(cv.subrange(i as int, cv.len() as int).subrange(1, cv.len() - i) =~=
                cv.subrange(i + 1, cv.len() as int));
            lemma_greens_text_split(cv.subrange(0, i + 1 as int), i as int);
            assert(cv.subrange(0, i + 1 as int).subrange(0, i as int) =~= cv.subrange(0, i as int));
            assert(cv.subrange(0, i + 1 as int).subrange(i as int, i + 1 as int) =~= seq![
                cv[i as int],
            ]);
            assert(cv.subrange(i as int, cv.len() as int)[0] == cv[i as int]);
            assert(cv.subrange(i as int, cv.len() as int).drop_first() =~= cv.subrange(
                i + 1,
                cv.len() as int,
            ));
        }
        let child = RedNode { green: &children[i], offset: cur };
        let w = child.green.width();
        match child.find_at_offset(target) {
            Some(rn) => {
                return Some(rn);
            },
            None => {},
        }
        cur = cur + w;
        i = i + 1;
    }
    proof {
        assert(cv.subrange(cv.len() as int, cv.len() as int) =~= Seq::<SpecGreen>::empty());
    }
    None
}

/// Appends the concatenated text of the trees to `s`.
fn append_greens_text(s: &mut String, ts: &Vec<GreenTree>)
    ensures
        final(s)@ == old(s)@ + greens_text(greens_view(ts@)),
    decreases *ts,
{
    let ghost base = s@;
    let ghost views = greens_view(ts@);
    proof {
        lemma_greens_view_index(ts@);
    }
    let mut i: usize = 0;
    while i < ts.len()
        invariant
            i <= ts@.len(),
            views == greens_view(ts@),
            views.len() == ts@.len(),
            forall|j: int| 0 <= j < ts@.len() ==> views[j] == (#[trigger] ts@[j])@,
            s@ == base + greens_text(views.subrange(0, i as int)),
        decreases ts@.len() - i,
    {
        let part = ts[i].text();
        s.append(part.as_str());
        proof {
            lemma_greens_text_split(views.subrange(0, i + 1 as int), i as int);
            assert(views.subrange(0, i + 1 as int).subrange(0, i as int) =~= views.subrange(
                0,
                i as int,
            ));
            assert(views.subrange(0, i + 1 as int).subrange(i as int, i + 1 as int) =~= seq![
                views[i as int],
            ]);
            assert(seq![views[i as int]].drop_first() =~= Seq::<SpecGreen>::empty());
            assert(seq![views[i as int]][0] == views[i as int]);
            assert(greens_text(Seq::<SpecGreen>::empty()) =~= Seq::<char>::empty());
            assert(greens_text(seq![views[i as int]]) =~= green_text(views[i as int]));
            assert(s@ =~= base + greens_text(views.subrange(0, i + 1 as int)));
        }
        i = i + 1;
    }
    proof {
        assert(views.subrange(0, views.len() as int) =~= views);
    }
}

} // verus!
