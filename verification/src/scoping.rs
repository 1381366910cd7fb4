//! Scope-aware binding resolution: a scope stack and the passes that mark
//! binding and reference identifiers over a lexed forest. The core treats
//! these as collaborators: completion asks them which names are visible at
//! an offset, and nothing else in the crate depends on how they decide.

use vstd::prelude::*;

use crate::token::{
    forest_size, lemma_tree_size_pos, lemma_trees_view_index, str_eq, tree_text, tree_view,
    trees_view, BindingId, SpecTree, TokenTree,
};

verus! {

/// One scope: the names defined in it, in definition order, each with its
/// binding identity. A name defined again shadows the earlier entry.
pub type ScopeEntries = Seq<(Seq<char>, BindingId)>;

/// The binding a scope gives a name: the latest entry wins.
pub open spec fn spec_resolve_scope(scope: ScopeEntries, name: Seq<char>) -> Option<BindingId>
    decreases scope,
{
    if scope.len() == 0 {
        None
    } else if scope.last().0 == name {
        Some(scope.last().1)
    } else {
        spec_resolve_scope(scope.drop_last(), name)
    }
}

/// The binding a scope stack gives a name: the innermost scope that defines
/// it wins.
pub open spec fn spec_resolve(scopes: Seq<ScopeEntries>, name: Seq<char>) -> Option<BindingId>
    decreases scopes,
{
    if scopes.len() == 0 {
        None
    } else {
        match spec_resolve_scope(scopes.last(), name) {
            Some(id) => Some(id),
            None => spec_resolve(scopes.drop_last(), name),
        }
    }
}

/// All the names a scope stack holds, outermost scope first, in definition
/// order.
pub open spec fn spec_names(scopes: Seq<ScopeEntries>) -> Seq<Seq<char>>
    decreases scopes,
{
    if scopes.len() == 0 {
        Seq::empty()
    } else {
        spec_names(scopes.drop_last()) + scopes.last().map_values(|e: (Seq<char>, BindingId)| e.0)
    }
}

/// One scope stack extends another: nothing was popped. Scopes below the
/// innermost one of the old stack are untouched, the old innermost scope
/// only gained entries, and new scopes may have opened above it.
pub open spec fn scopes_extend(before: Seq<ScopeEntries>, after: Seq<ScopeEntries>) -> bool {
    &&& before.len() <= after.len()
    &&& forall|i: int| 0 <= i < before.len() - 1 ==> after[i] == before[i]
    &&& (before.len() > 0 ==> before.last().is_prefix_of(after[before.len() - 1]))
}

/// Extension is reflexive.
pub proof fn lemma_scopes_extend_refl(s: Seq<ScopeEntries>)
    ensures
        scopes_extend(s, s),
{
    if s.len() > 0 {
        assert(s.last() =~= s[s.len() - 1].subrange(0, s.last().len() as int));
    }
}

/// Extension composes.
pub proof fn lemma_scopes_extend_trans(a: Seq<ScopeEntries>, b: Seq<ScopeEntries>, c: Seq<ScopeEntries>)
    requires
        scopes_extend(a, b),
        scopes_extend(b, c),
    ensures
        scopes_extend(a, c),
{
    if a.len() > 0 {
        if a.len() - 1 < b.len() - 1 {
            assert(c[a.len() - 1] == b[a.len() - 1]);
        } else {
            assert(b[a.len() - 1] == b.last());
            assert(a.last() =~= c[a.len() - 1].subrange(0, a.last().len() as int));
        }
    }
}

/// Opening a scope extends a stack.
pub proof fn lemma_push_extends(s: Seq<ScopeEntries>)
    ensures
        scopes_extend(s, s.push(Seq::empty())),
{
    if s.len() > 0 {
        assert(s.last() =~= s.push(Seq::empty())[s.len() - 1].subrange(
            0,
            s.last().len() as int,
        ));
    }
}

/// Recording an entry in the innermost scope extends a stack.
pub proof fn lemma_define_extends(s: Seq<ScopeEntries>, e: (Seq<char>, BindingId))
    requires
        s.len() > 0,
    ensures
        scopes_extend(s, s.update(s.len() - 1, s.last().push(e))),
{
    let t = s.update(s.len() - 1, s.last().push(e));
    assert(s.last() =~= t[s.len() - 1].subrange(0, s.last().len() as int));
}

/// A stack of scopes for resolving variables. Bindings are recorded with a
/// running counter so that every definition has a distinct identity.
#[derive(Debug)]
pub struct ScopeStack {
    scopes: Vec<Vec<(String, BindingId)>>,
    next_id: usize,
}

impl ScopeStack {
    /// The mathematical value of the stack: its scopes' entries.
    pub closed spec fn spec_scopes(&self) -> Seq<ScopeEntries> {
        Seq::new(
            self.scopes@.len(),
            |i: int|
                Seq::new(
                    self.scopes@[i]@.len(),
                    |j: int| (self.scopes@[i]@[j].0@, self.scopes@[i]@[j].1),
                ),
        )
    }

    /// The next binding identity to hand out.
    pub closed spec fn spec_next_id(&self) -> nat {
        self.next_id as nat
    }

    /// A stack holding one empty global scope.
    pub fn new() -> (r: Self)
        ensures
            r.spec_scopes() =~= seq![Seq::<(Seq<char>, BindingId)>::empty()],
            r.spec_next_id() == 0,
    {
        let mut scopes: Vec<Vec<(String, BindingId)>> = Vec::new();
        scopes.push(Vec::new());
        let r = Self { scopes, next_id: 0 };
        proof {
            assert(r.spec_scopes() =~~= seq![Seq::<(Seq<char>, BindingId)>::empty()]);
        }
        r
    }

    /// Opens a new innermost scope.
    pub fn push(&mut self)
        ensures
            final(self).spec_scopes() == old(self).spec_scopes().push(
                Seq::<(Seq<char>, BindingId)>::empty(),
            ),
            final(self).spec_next_id() == old(self).spec_next_id(),
    {
        self.scopes.push(Vec::new());
        proof {
            assert(self.spec_scopes() =~~= old(self).spec_scopes().push(
                Seq::<(Seq<char>, BindingId)>::empty(),
            ));
        }
    }

    /// Closes the innermost scope; a stack with no scope left stays empty.
    pub fn pop(&mut self)
        ensures
            final(self).spec_next_id() == old(self).spec_next_id(),
            old(self).spec_scopes().len() > 0 ==> final(self).spec_scopes() == old(
                self,
            ).spec_scopes().drop_last(),
            old(self).spec_scopes().len() == 0 ==> final(self).spec_scopes() == old(
                self,
            ).spec_scopes(),
    {
        let popped = self.scopes.pop();
        proof {
            if old(self).spec_scopes().len() > 0 {
                assert(self.spec_scopes() =~~= old(self).spec_scopes().drop_last());
            } else {
                assert(self.spec_scopes() =~~= old(self).spec_scopes());
            }
        }
    }

    /// Defines `name` in the innermost scope under a fresh identity, which
    /// it returns. A second definition of the same name shadows the first.
    /// Identities saturate at the machine limit; with no scope open the
    /// identity is handed out but nothing is recorded.
    pub fn define(&mut self, name: String) -> (r: BindingId)
        ensures
            r == BindingId(old(self).spec_next_id() as usize),
            final(self).spec_next_id() == if old(self).spec_next_id() < usize::MAX {
                old(self).spec_next_id() + 1
            } else {
                old(self).spec_next_id()
            },
            final(self).spec_scopes() == if old(self).spec_scopes().len() > 0 {
                old(self).spec_scopes().update(
                    old(self).spec_scopes().len() - 1,
                    old(self).spec_scopes().last().push((name@, r)),
                )
            } else {
                old(self).spec_scopes()
            },
    {
        let id = BindingId(self.next_id);
        if self.next_id < usize::MAX {
            self.next_id = self.next_id + 1;
        }
        self.define_existing(name, id);
        id
    }

    /// Records an already-identified binding in the innermost scope; with
    /// no scope open nothing is recorded.
    pub fn define_existing(&mut self, name: String, id: BindingId)
        ensures
            final(self).spec_next_id() == old(self).spec_next_id(),
            final(self).spec_scopes() == if old(self).spec_scopes().len() > 0 {
                old(self).spec_scopes().update(
                    old(self).spec_scopes().len() - 1,
                    old(self).spec_scopes().last().push((name@, id)),
                )
            } else {
                old(self).spec_scopes()
            },
    {
        if self.scopes.len() == 0 {
            proof {
                assert(self.spec_scopes() =~~= old(self).spec_scopes());
            }
            return ;
        }
        let mut scope = match self.scopes.pop() {
            Some(s) => s,
            None => Vec::new(),
        };
        scope.push((name, id));
        self.scopes.push(scope);
        proof {
            assert(self.spec_scopes() =~~= old(self).spec_scopes().update(
                old(self).spec_scopes().len() - 1,
                old(self).spec_scopes().last().push((name@, id)),
            ));
        }
    }

    /// The binding `name` refers to here: the innermost definition wins.
    pub fn resolve(&self, name: &str) -> (r: Option<BindingId>)
        ensures
            r == spec_resolve(self.spec_scopes(), name@),
    {
        let ghost model = self.spec_scopes();
        let mut i: usize = self.scopes.len();
        proof {
            assert(model.subrange(0, model.len() as int) =~= model);
        }
        while i > 0
            invariant
                i <= self.scopes@.len(),
                model == self.spec_scopes(),
                model.len() == self.scopes@.len(),
                spec_resolve(model, name@) == spec_resolve(model.subrange(0, i as int), name@),
            decreases i,
        {
            proof {
                assert(model.subrange(0, i as int).last() == model[i - 1]);
                assert(model.subrange(0, i as int).drop_last() =~= model.subrange(0, i - 1));
            }
            let scope = &self.scopes[i - 1];
            let ghost entries = model[i - 1];
            let mut j: usize = scope.len();
            proof {
                assert(entries.subrange(0, j as int) =~= entries);
            }
            while j > 0
                invariant
                    j <= scope@.len(),
                    entries == model[i - 1],
                    i >= 1,
                    i <= self.scopes@.len(),
                    model == self.spec_scopes(),
                    model.len() == self.scopes@.len(),
                    scope == &self.scopes@[i - 1],
                    entries.len() == scope@.len(),
                    forall|q: int| 0 <= q < scope@.len() ==> entries[q] == (
                        (#[trigger] scope@[q]).0@,
                        scope@[q].1,
                    ),
                    spec_resolve_scope(entries, name@) == spec_resolve_scope(
                        entries.subrange(0, j as int),
                        name@,
                    ),
                    spec_resolve(model, name@) == (match spec_resolve_scope(entries, name@) {
                        Some(id) => Some(id),
                        None => spec_resolve(model.subrange(0, i - 1), name@),
                    }),
                decreases j,
            {
                proof {
                    assert(entries.subrange(0, j as int).last() == entries[j - 1]);
                    assert(entries.subrange(0, j as int).drop_last() =~= entries.subrange(
                        0,
                        j - 1,
                    ));
                }
                let entry = &scope[j - 1];
                if str_eq(entry.0.as_str(), name) {
                    return Some(entry.1);
                }
                j = j - 1;
            }
            proof {
                assert(entries.subrange(0, 0) =~= Seq::<(Seq<char>, BindingId)>::empty());
            }
            i = i - 1;
        }
        proof {
            assert(model.subrange(0, 0) =~= Seq::<ScopeEntries>::empty());
        }
        None
    }

    /// Every name the stack holds, outermost scope first, in definition
    /// order.
    pub fn names(&self) -> (r: Vec<String>)
        ensures
            r.deep_view() == spec_names(self.spec_scopes()),
    {
        let ghost model = self.spec_scopes();
        let mut out: Vec<String> = Vec::new();
        let mut i: usize = 0;
        proof {
            assert(model.subrange(0, 0) =~= Seq::<ScopeEntries>::empty());
            assert(out.deep_view() =~= spec_names(model.subrange(0, 0)));
        }
        while i < self.scopes.len()
            invariant
                i <= self.scopes@.len(),
                model == self.spec_scopes(),
                model.len() == self.scopes@.len(),
                out.deep_view() == spec_names(model.subrange(0, i as int)),
            decreases self.scopes@.len() - i,
        {
            let scope = &self.scopes[i];
            let ghost entries = model[i as int];
            let mut j: usize = 0;
            proof {
                assert(entries.subrange(0, 0).map_values(
                    |e: (Seq<char>, BindingId)| e.0,
                ) =~= Seq::<Seq<char>>::empty());
                assert(out.deep_view() =~= spec_names(model.subrange(0, i as int))
                    + entries.subrange(0, 0).map_values(|e: (Seq<char>, BindingId)| e.0));
            }
            while j < scope.len()
                invariant
                    j <= scope@.len(),
                    entries == model[i as int],
                    i < self.scopes@.len(),
                    model == self.spec_scopes(),
                    model.len() == self.scopes@.len(),
                    scope == &self.scopes@[i as int],
                    entries.len() == scope@.len(),
                    forall|q: int| 0 <= q < scope@.len() ==> entries[q] == (
                        (#[trigger] scope@[q]).0@,
                        scope@[q].1,
                    ),
                    out.deep_view() == spec_names(model.subrange(0, i as int))
                        + entries.subrange(0, j as int).map_values(
                        |e: (Seq<char>, BindingId)| e.0,
                    ),
                decreases scope@.len() - j,
            {
                let ghost before = out.deep_view();
                out.push(scope[j].0.clone());
                proof {
                    assert(out.deep_view() =~= before.push(entries[j as int].0));
                    assert(entries.subrange(0, j + 1 as int).map_values(
                        |e: (Seq<char>, BindingId)| e.0,
                    ) =~= entries.subrange(0, j as int).map_values(
                        |e: (Seq<char>, BindingId)| e.0,
                    ).push(entries[j as int].0));
                }
                j = j + 1;
            }
            proof {
                assert(entries.subrange(0, entries.len() as int) =~= entries);
                assert(model.subrange(0, i + 1 as int).drop_last() =~= model.subrange(0, i as int));
                assert(model.subrange(0, i + 1 as int).last() == entries);
            }
            i = i + 1;
        }
        proof {
            assert(model.subrange(0, model.len() as int) =~= model);
        }
        out
    }
}


/// The same forest, token for token: only binding annotations may differ,
/// so every tree keeps its text.
pub open spec fn texts_preserved(a: Seq<TokenTree>, b: Seq<TokenTree>) -> bool {
    &&& b.len() == a.len()
    &&& forall|i: int|
        0 <= i < a.len() ==> tree_text(tree_view(#[trigger] b[i])) == tree_text(tree_view(a[i]))
}

/// A stack of one empty scope holds no name.
pub proof fn lemma_names_empty_stack(s: Seq<ScopeEntries>)
    requires
        s.len() == 1,
        s.last().len() == 0,
    ensures
        spec_names(s) == Seq::<Seq<char>>::empty(),
{
    reveal_with_fuel(spec_names, 2);
    assert(s.drop_last() =~= Seq::<ScopeEntries>::empty());
    assert(spec_names(s).len() == 0);
    assert(spec_names(s) =~= Seq::<Seq<char>>::empty());
}

/// Opening an empty scope adds no name.
proof fn lemma_names_push_scope(s: Seq<ScopeEntries>)
    ensures
        spec_names(s.push(Seq::empty())) == spec_names(s),
{
    let p = s.push(Seq::<(Seq<char>, BindingId)>::empty());
    assert(p.drop_last() =~= s);
    assert(p.last().map_values(|e: (Seq<char>, BindingId)| e.0) =~= Seq::<Seq<char>>::empty());
    assert(spec_names(p) =~= spec_names(s));
}

/// Defining a name appends exactly that name to the stack's names.
proof fn lemma_names_define(s: Seq<ScopeEntries>, name: Seq<char>, id: BindingId)
    requires
        s.len() > 0,
    ensures
        spec_names(s.update(s.len() - 1, s.last().push((name, id)))) == spec_names(s).push(name),
{
    let t = s.update(s.len() - 1, s.last().push((name, id)));
    assert(t.drop_last() =~= s.drop_last());
    assert(t.last() == s.last().push((name, id)));
    assert(t.last().map_values(|e: (Seq<char>, BindingId)| e.0) =~= s.last().map_values(
        |e: (Seq<char>, BindingId)| e.0,
    ).push(name));
    assert(spec_names(t) =~= spec_names(s).push(name));
}

/// Whether the structural walk of the no-op pass finds the offset inside a
/// tree: inside a token's span (end exclusive) or a delimited node's span
/// (end inclusive only when the node is unclosed), searching groups
/// transparently.
pub open spec fn spec_noop_found(ts: Seq<SpecTree>, offset: usize) -> bool
    decreases forest_size(ts),
{
    if ts.len() == 0 {
        false
    } else {
        proof {
            lemma_tree_size_pos(ts[0]);
        }
        let hit: bool = match ts[0] {
            SpecTree::Token(t) => t.location.offset <= offset && offset < t.location.offset
                + t.location.len,
            SpecTree::Delimited(_, _, loc, closed) => if closed {
                loc.offset <= offset && offset < loc.offset + loc.len
            } else {
                loc.offset <= offset && offset <= loc.offset + loc.len
            },
            SpecTree::Group(cs) => spec_noop_found(cs, offset),
            _ => false,
        };
        hit || spec_noop_found(ts.drop_first(), offset)
    }
}

/// What the keyword pass collects scanning towards `offset`: the names it
/// defines on the way (every identifier right after the binding keyword,
/// with delimited nodes holding the offset entered under a fresh scope),
/// and whether the offset was found inside a tree. The scan stops at the
/// offset, or at the first tree past it.
pub open spec fn spec_simple_collect(
    kw: Seq<char>,
    ts: Seq<SpecTree>,
    offset: usize,
    after_kw: bool,
) -> (Seq<Seq<char>>, bool)
    decreases forest_size(ts),
{
    if ts.len() == 0 {
        (Seq::empty(), false)
    } else {
        proof {
            lemma_tree_size_pos(ts[0]);
        }
        match ts[0] {
            SpecTree::Token(t) => {
                if t.location.offset <= offset && offset < t.location.offset + t.location.len {
                    (Seq::empty(), true)
                } else if t.location.offset > offset {
                    (Seq::empty(), false)
                } else if t.kind is Whitespace {
                    spec_simple_collect(kw, ts.drop_first(), offset, after_kw)
                } else if after_kw && t.kind is Identifier {
                    let (ns, f) = spec_simple_collect(kw, ts.drop_first(), offset, t.text == kw);
                    (seq![t.text] + ns, f)
                } else {
                    spec_simple_collect(kw, ts.drop_first(), offset, t.text == kw)
                }
            },
            SpecTree::Delimited(_, cs, loc, closed) => {
                let inside = if closed {
                    loc.offset <= offset && offset < loc.offset + loc.len
                } else {
                    loc.offset <= offset && offset <= loc.offset + loc.len
                };
                if inside {
                    (spec_simple_collect(kw, cs, offset, false).0, true)
                } else if loc.offset > offset {
                    (Seq::empty(), false)
                } else {
                    spec_simple_collect(kw, ts.drop_first(), offset, false)
                }
            },
            SpecTree::Group(cs) => {
                let (ns, f) = spec_simple_collect(kw, cs, offset, false);
                if f {
                    (ns, true)
                } else {
                    let (ns2, f2) = spec_simple_collect(kw, ts.drop_first(), offset, false);
                    (ns + ns2, f2)
                }
            },
            _ => spec_simple_collect(kw, ts.drop_first(), offset, after_kw),
        }
    }
}

/// The names a binding pass defines while building the scope at `offset`.
pub open spec fn spec_collected_names(
    pass: BindingPass,
    ts: Seq<SpecTree>,
    offset: usize,
) -> Seq<Seq<char>> {
    match pass {
        BindingPass::NoOp(_) => Seq::empty(),
        BindingPass::Simple(p) => spec_simple_collect(p.spec_keyword(), ts, offset, false).0,
    }
}

/// Whether a binding pass finds the offset inside a tree.
pub open spec fn spec_collect_found(pass: BindingPass, ts: Seq<SpecTree>, offset: usize) -> bool {
    match pass {
        BindingPass::NoOp(_) => spec_noop_found(ts, offset),
        BindingPass::Simple(p) => spec_simple_collect(p.spec_keyword(), ts, offset, false).1,
    }
}

/// A binding pass that identifies nothing.
#[derive(Debug)]
pub struct NoOpBindingPass;

impl NoOpBindingPass {
    /// Hands the forest back with no binding marked.
    pub fn identify_bindings(&self, trees: &Vec<TokenTree>, _scope: &mut ScopeStack) -> (r: Vec<
        TokenTree,
    >)
        ensures
            texts_preserved(trees@, r@),
    {
        let r = crate::token::duplicate_trees(trees);
        proof {
            assert(texts_preserved(trees@, r@));
        }
        r
    }

    /// Builds the scope stack at `offset` by structure alone: a scope opens
    /// for every delimited node whose span holds the offset, and no name is
    /// defined. Returns whether the offset was found inside a tree.
    pub fn collect_scope_at(
        &self,
        trees: &Vec<TokenTree>,
        offset: usize,
        scope: &mut ScopeStack,
    ) -> (r: bool)
        ensures
            scopes_extend(old(scope).spec_scopes(), final(scope).spec_scopes()),
            final(scope).spec_next_id() >= old(scope).spec_next_id(),
            final(scope).spec_scopes().len() >= old(scope).spec_scopes().len(),
            spec_names(final(scope).spec_scopes()) == spec_names(old(scope).spec_scopes()),
            r == spec_noop_found(trees_view(trees@), offset),
        decreases *trees,
    {
        let ghost tv = trees_view(trees@);
        let ghost initial = scope.spec_scopes();
        proof {
            lemma_scopes_extend_refl(initial);
            lemma_trees_view_index(trees@);
            assert(tv.subrange(0, tv.len() as int) =~= tv);
        }
        let mut i: usize = 0;
        while i < trees.len()
            invariant
                i <= trees@.len(),
                tv == trees_view(trees@),
                tv.len() == trees@.len(),
                forall|j: int| 0 <= j < trees@.len() ==> tv[j] == tree_view(#[trigger] trees@[j]),
                initial == old(scope).spec_scopes(),
                scopes_extend(initial, scope.spec_scopes()),
                scope.spec_next_id() >= old(scope).spec_next_id(),
                scope.spec_scopes().len() >= initial.len(),
                spec_names(scope.spec_scopes()) == spec_names(initial),
                spec_noop_found(tv, offset) == spec_noop_found(
                    tv.subrange(i as int, tv.len() as int),
                    offset,
                ),
            decreases trees@.len() - i,
        {
            proof {
                assert(tv.subrange(i as int, tv.len() as int)[0] == tv[i as int]);
                assert(tv.subrange(i as int, tv.len() as int).drop_first() =~= tv.subrange(
                    i + 1,
                    tv.len() as int,
                ));
            }
            match &trees[i] {
                TokenTree::Token(t) => {
                    let loc = t.location;
                    if loc.offset <= offset && offset - loc.offset < loc.len {
                        return true;
                    }
                },
                TokenTree::Delimited(_, children, loc, closed) => {
                    let inside = if *closed {
                        loc.offset <= offset && offset - loc.offset < loc.len
                    } else {
                        loc.offset <= offset && offset - loc.offset <= loc.len
                    };
                    if inside {
                        let ghost before = scope.spec_scopes();
                        scope.push();
                        proof {
                            lemma_push_extends(before);
                            lemma_scopes_extend_trans(initial, before, scope.spec_scopes());
                            lemma_names_push_scope(before);
                        }
                        let ghost mid = scope.spec_scopes();
                        // Whether or not a child holds the offset, the
                        // offset is inside this node: the scope stays open.
                        self.collect_scope_at(children, offset, scope);
                        proof {
                            lemma_scopes_extend_trans(initial, mid, scope.spec_scopes());
                        }
                        return true;
                    }
                },
                TokenTree::Group(children) => {
                    let ghost before = scope.spec_scopes();
                    let found = self.collect_scope_at(children, offset, scope);
                    proof {
                        lemma_scopes_extend_trans(initial, before, scope.spec_scopes());
                    }
                    if found {
                        return true;
                    }
                },
                _ => {},
            }
            i = i + 1;
        }
        proof {
            assert(tv.subrange(tv.len() as int, tv.len() as int) =~= Seq::<SpecTree>::empty());
        }
        false
    }
}

/// A reference pass that resolves nothing.
#[derive(Debug)]
pub struct NoOpReferencePass;

impl NoOpReferencePass {
    /// Hands the forest back with no reference resolved.
    pub fn resolve_references(&self, trees: &Vec<TokenTree>, _scope: &mut ScopeStack) -> (r: Vec<
        TokenTree,
    >)
        ensures
            texts_preserved(trees@, r@),
    {
        let r = crate::token::duplicate_trees(trees);
        proof {
            assert(texts_preserved(trees@, r@));
        }
        r
    }
}

/// A binding pass that treats `keyword <identifier>` as a definition, with
/// every delimited node opening a scope.
#[derive(Debug)]
pub struct SimpleBindingPass {
    keyword: String,
}

impl SimpleBindingPass {
    /// The keyword that introduces a binding.
    pub closed spec fn spec_keyword(&self) -> Seq<char> {
        self.keyword@
    }

    pub fn new(keyword: &str) -> (r: Self)
        ensures
            r.spec_keyword() == keyword@,
    {
        Self { keyword: keyword.to_owned() }
    }

    /// Marks every identifier that directly follows the binding keyword
    /// (with only whitespace between) as a fresh binding, recursing into
    /// delimited nodes under their own scope. The forest keeps its text.
    pub fn identify_bindings(&self, trees: &Vec<TokenTree>, scope: &mut ScopeStack) -> (r: Vec<
        TokenTree,
    >)
        ensures
            texts_preserved(trees@, r@),
        decreases *trees,
    {
        let mut out: Vec<TokenTree> = Vec::new();
        let mut after_keyword = false;
        let mut i: usize = 0;
        while i < trees.len()
            invariant
                i <= trees@.len(),
                out@.len() == i,
                forall|j: int|
                    0 <= j < i ==> tree_text(tree_view(#[trigger] out@[j])) == tree_text(
                        tree_view(trees@[j]),
                    ),
            decreases trees@.len() - i,
        {
            match &trees[i] {
                TokenTree::Delimited(d, children, loc, closed) => {
                    scope.push();
                    let new_children = self.identify_bindings(children, scope);
                    scope.pop();
                    let node = TokenTree::Delimited(*d, new_children, *loc, *closed);
                    proof {
                        lemma_trees_view_index(children@);
                        lemma_trees_view_index(node->Delimited_1@);
                        crate::token::lemma_forest_text_pointwise(
                            trees_view(children@),
                            trees_view(node->Delimited_1@),
                        );
                    }
                    out.push(node);
                    after_keyword = false;
                },
                TokenTree::Group(children) => {
                    let new_children = self.identify_bindings(children, scope);
                    let node = TokenTree::Group(new_children);
                    proof {
                        lemma_trees_view_index(children@);
                        lemma_trees_view_index(node->Group_0@);
                        crate::token::lemma_forest_text_pointwise(
                            trees_view(children@),
                            trees_view(node->Group_0@),
                        );
                    }
                    out.push(node);
                    after_keyword = false;
                },
                TokenTree::Token(t) => {
                    if t.kind.is_whitespace() {
                        out.push(TokenTree::Token(t.duplicate()));
                        // Whitespace keeps a pending binding keyword alive.
                    } else if after_keyword && t.kind.is_identifier() {
                        let mut marked = t.duplicate();
                        let id = scope.define(marked.text.clone());
                        marked.binding = Some(id);
                        out.push(TokenTree::Token(marked));
                        after_keyword = str_eq(t.text.as_str(), self.keyword.as_str());
                    } else {
                        out.push(TokenTree::Token(t.duplicate()));
                        after_keyword = str_eq(t.text.as_str(), self.keyword.as_str());
                    }
                },
                TokenTree::Error(msg) => {
                    out.push(TokenTree::Error(msg.clone()));
                    after_keyword = false;
                },
                TokenTree::Empty => {
                    out.push(TokenTree::Empty);
                    after_keyword = false;
                },
            }
            i = i + 1;
        }
        out
    }

    /// Builds the scope stack at `offset`: scans left to right defining the
    /// bindings it passes, opens a scope for each delimited node holding the
    /// offset and descends, and stops once the offset is reached. Returns
    /// whether the offset was found inside a tree; the names it defined are
    /// exactly what [`spec_simple_collect`] says.
    pub fn collect_scope_at(
        &self,
        trees: &Vec<TokenTree>,
        offset: usize,
        scope: &mut ScopeStack,
    ) -> (r: bool)
        requires
            old(scope).spec_scopes().len() > 0,
        ensures
            scopes_extend(old(scope).spec_scopes(), final(scope).spec_scopes()),
            final(scope).spec_next_id() >= old(scope).spec_next_id(),
            final(scope).spec_scopes().len() >= old(scope).spec_scopes().len(),
            ({
                let m = spec_simple_collect(
                    self.spec_keyword(),
                    trees_view(trees@),
                    offset,
                    false,
                );
                &&& spec_names(final(scope).spec_scopes()) == spec_names(
                    old(scope).spec_scopes(),
                ) + m.0
                &&& r == m.1
            }),
        decreases *trees,
    {
        let ghost tv = trees_view(trees@);
        let ghost kwv = self.spec_keyword();
        let ghost initial = scope.spec_scopes();
        proof {
            lemma_scopes_extend_refl(initial);
            lemma_trees_view_index(trees@);
            assert(tv.subrange(0, tv.len() as int) =~= tv);
            assert(spec_names(initial) + spec_simple_collect(kwv, tv, offset, false).0
                =~= spec_names(initial) + spec_simple_collect(kwv, tv, offset, false).0);
        }
        let mut after_keyword = false;
        let mut i: usize = 0;
        while i < trees.len()
            invariant
                i <= trees@.len(),
                tv == trees_view(trees@),
                tv.len() == trees@.len(),
                forall|j: int| 0 <= j < trees@.len() ==> tv[j] == tree_view(#[trigger] trees@[j]),
                kwv == self.spec_keyword(),
                initial == old(scope).spec_scopes(),
                initial.len() > 0,
                scopes_extend(initial, scope.spec_scopes()),
                scope.spec_next_id() >= old(scope).spec_next_id(),
                scope.spec_scopes().len() >= initial.len(),
                ({
                    let full = spec_simple_collect(kwv, tv, offset, false);
                    let rest = spec_simple_collect(
                        kwv,
                        tv.subrange(i as int, tv.len() as int),
                        offset,
                        after_keyword,
                    );
                    &&& spec_names(initial) + full.0 == spec_names(scope.spec_scopes()) + rest.0
                    &&& full.1 == rest.1
                }),
            decreases trees@.len() - i,
        {
            let ghost now = scope.spec_scopes();
            proof {
                assert(tv.subrange(i as int, tv.len() as int)[0] == tv[i as int]);
                assert(tv.subrange(i as int, tv.len() as int).drop_first() =~= tv.subrange(
                    i + 1,
                    tv.len() as int,
                ));
            }
            match &trees[i] {
                TokenTree::Token(t) => {
                    let loc = t.location;
                    if loc.offset <= offset && offset - loc.offset < loc.len {
                        proof {
                            assert(spec_names(scope.spec_scopes()) + Seq::<Seq<char>>::empty()
                                =~= spec_names(scope.spec_scopes()));
                        }
                        return true;
                    }
                    if loc.offset > offset {
                        proof {
                            assert(spec_names(scope.spec_scopes()) + Seq::<Seq<char>>::empty()
                                =~= spec_names(scope.spec_scopes()));
                        }
                        return false;
                    }
                    if t.kind.is_whitespace() {
                        // Whitespace keeps a pending binding keyword alive.
                    } else if after_keyword && t.kind.is_identifier() {
                        let ghost before = scope.spec_scopes();
                        let id = scope.define(t.text.clone());
                        proof {
                            lemma_define_extends(before, (t.text@, id));
                            lemma_scopes_extend_trans(initial, before, scope.spec_scopes());
                            lemma_names_define(before, t.text@, id);
                            let full = spec_simple_collect(kwv, tv, offset, false);
                            let rest = spec_simple_collect(
                                kwv,
                                tv.subrange(i as int, tv.len() as int),
                                offset,
                                after_keyword,
                            );
                            let rest2 = spec_simple_collect(
                                kwv,
                                tv.subrange(i + 1, tv.len() as int),
                                offset,
                                tv[i as int]->Token_0.text == kwv,
                            );
                            assert(rest.0 =~= seq![t.text@] + rest2.0);
                            assert(spec_names(initial) + full.0 =~= spec_names(
                                scope.spec_scopes(),
                            ) + rest2.0);
                        }
                        after_keyword = str_eq(t.text.as_str(), self.keyword.as_str());
                    } else {
                        after_keyword = str_eq(t.text.as_str(), self.keyword.as_str());
                    }
                },
                TokenTree::Delimited(_, children, loc, closed) => {
                    let inside = if *closed {
                        loc.offset <= offset && offset - loc.offset < loc.len
                    } else {
                        loc.offset <= offset && offset - loc.offset <= loc.len
                    };
                    if inside {
                        let ghost before = scope.spec_scopes();
                        scope.push();
                        proof {
                            lemma_push_extends(before);
                            lemma_scopes_extend_trans(initial, before, scope.spec_scopes());
                            lemma_names_push_scope(before);
                        }
                        let ghost mid = scope.spec_scopes();
                        // Whether or not a child holds the offset, the
                        // offset is inside this node: the scope stays open.
                        self.collect_scope_at(children, offset, scope);
                        proof {
                            lemma_scopes_extend_trans(initial, mid, scope.spec_scopes());
                            let inner = spec_simple_collect(
                                kwv,
                                trees_view(children@),
                                offset,
                                false,
                            );
                            assert(spec_names(scope.spec_scopes()) =~= spec_names(now) + inner.0);
                            assert(spec_names(initial) + spec_simple_collect(
                                kwv,
                                tv,
                                offset,
                                false,
                            ).0 =~= spec_names(scope.spec_scopes()) + Seq::<Seq<char>>::empty());
                        }
                        return true;
                    }
                    if loc.offset > offset {
                        proof {
                            assert(spec_names(scope.spec_scopes()) + Seq::<Seq<char>>::empty()
                                =~= spec_names(scope.spec_scopes()));
                        }
                        return false;
                    }
                    after_keyword = false;
                },
                TokenTree::Group(children) => {
                    let ghost before = scope.spec_scopes();
                    let found = self.collect_scope_at(children, offset, scope);
                    proof {
                        lemma_scopes_extend_trans(initial, before, scope.spec_scopes());
                        let inner = spec_simple_collect(kwv, trees_view(children@), offset, false);
                        assert(spec_names(scope.spec_scopes()) =~= spec_names(now) + inner.0);
                        if found {
                            assert(spec_names(initial) + spec_simple_collect(
                                kwv,
                                tv,
                                offset,
                                false,
                            ).0 =~= spec_names(scope.spec_scopes()) + Seq::<Seq<char>>::empty());
                        } else {
                            let rest2 = spec_simple_collect(
                                kwv,
                                tv.subrange(i + 1, tv.len() as int),
                                offset,
                                false,
                            );
                            assert(spec_names(initial) + spec_simple_collect(
                                kwv,
                                tv,
                                offset,
                                false,
                            ).0 =~= spec_names(scope.spec_scopes()) + rest2.0);
                        }
                    }
                    if found {
                        return true;
                    }
                    after_keyword = false;
                },
                _ => {},
            }
            i = i + 1;
        }
        proof {
            assert(tv.subrange(tv.len() as int, tv.len() as int) =~= Seq::<SpecTree>::empty());
            assert(spec_names(scope.spec_scopes()) + Seq::<Seq<char>>::empty() =~= spec_names(
                scope.spec_scopes(),
            ));
        }
        false
    }
}

/// A reference pass that links identifiers to the bindings in scope.
#[derive(Debug)]
pub struct SimpleReferencePass;

impl SimpleReferencePass {
    /// Re-declares marked bindings in the current scope and links every
    /// other identifier to the binding its name resolves to, recursing into
    /// delimited nodes under their own scope. The forest keeps its text.
    pub fn resolve_references(&self, trees: &Vec<TokenTree>, scope: &mut ScopeStack) -> (r: Vec<
        TokenTree,
    >)
        ensures
            texts_preserved(trees@, r@),
        decreases *trees,
    {
        let mut out: Vec<TokenTree> = Vec::new();
        let mut i: usize = 0;
        while i < trees.len()
            invariant
                i <= trees@.len(),
                out@.len() == i,
                forall|j: int|
                    0 <= j < i ==> tree_text(tree_view(#[trigger] out@[j])) == tree_text(
                        tree_view(trees@[j]),
                    ),
            decreases trees@.len() - i,
        {
            match &trees[i] {
                TokenTree::Delimited(d, children, loc, closed) => {
                    scope.push();
                    let new_children = self.resolve_references(children, scope);
                    scope.pop();
                    let node = TokenTree::Delimited(*d, new_children, *loc, *closed);
                    proof {
                        lemma_trees_view_index(children@);
                        lemma_trees_view_index(node->Delimited_1@);
                        crate::token::lemma_forest_text_pointwise(
                            trees_view(children@),
                            trees_view(node->Delimited_1@),
                        );
                    }
                    out.push(node);
                },
                TokenTree::Group(children) => {
                    let new_children = self.resolve_references(children, scope);
                    let node = TokenTree::Group(new_children);
                    proof {
                        lemma_trees_view_index(children@);
                        lemma_trees_view_index(node->Group_0@);
                        crate::token::lemma_forest_text_pointwise(
                            trees_view(children@),
                            trees_view(node->Group_0@),
                        );
                    }
                    out.push(node);
                },
                TokenTree::Token(t) => {
                    if t.kind.is_identifier() {
                        match t.binding {
                            Some(id) => {
                                // A definition already marked by the
                                // binding pass: re-declare it here.
                                scope.define_existing(t.text.clone(), id);
                                out.push(TokenTree::Token(t.duplicate()));
                            },
                            None => {
                                let mut linked = t.duplicate();
                                linked.binding = scope.resolve(t.text.as_str());
                                out.push(TokenTree::Token(linked));
                            },
                        }
                    } else {
                        out.push(TokenTree::Token(t.duplicate()));
                    }
                },
                TokenTree::Error(msg) => {
                    out.push(TokenTree::Error(msg.clone()));
                },
                TokenTree::Empty => {
                    out.push(TokenTree::Empty);
                },
            }
            i = i + 1;
        }
        out
    }
}

/// The binding passes a language can choose from.
#[derive(Debug)]
pub enum BindingPass {
    NoOp(NoOpBindingPass),
    Simple(SimpleBindingPass),
}

impl BindingPass {
    /// Scans the forest and marks the tokens that define new variables,
    /// keeping every tree's text.
    pub fn identify_bindings(&self, trees: &Vec<TokenTree>, scope: &mut ScopeStack) -> (r: Vec<
        TokenTree,
    >)
        ensures
            texts_preserved(trees@, r@),
    {
        match self {
            BindingPass::NoOp(p) => p.identify_bindings(trees, scope),
            BindingPass::Simple(p) => p.identify_bindings(trees, scope),
        }
    }

    /// Builds the scope stack at `offset`: the pass defines exactly the
    /// names [`spec_collected_names`] says, and returns whether the offset
    /// was found inside a tree.
    pub fn collect_scope_at(
        &self,
        trees: &Vec<TokenTree>,
        offset: usize,
        scope: &mut ScopeStack,
    ) -> (r: bool)
        requires
            old(scope).spec_scopes().len() > 0,
        ensures
            scopes_extend(old(scope).spec_scopes(), final(scope).spec_scopes()),
            final(scope).spec_next_id() >= old(scope).spec_next_id(),
            spec_names(final(scope).spec_scopes()) == spec_names(old(scope).spec_scopes())
                + spec_collected_names(*self, trees_view(trees@), offset),
            r == spec_collect_found(*self, trees_view(trees@), offset),
    {
        match self {
            BindingPass::NoOp(p) => {
                let r = p.collect_scope_at(trees, offset, scope);
                proof {
                    assert(spec_names(scope.spec_scopes()) + Seq::<Seq<char>>::empty()
                        =~= spec_names(scope.spec_scopes()));
                }
                r
            },
            BindingPass::Simple(p) => p.collect_scope_at(trees, offset, scope),
        }
    }
}

/// The reference passes a language can choose from.
#[derive(Debug)]
pub enum ReferencePass {
    NoOp(NoOpReferencePass),
    Simple(SimpleReferencePass),
}

impl ReferencePass {
    /// Scans the forest and links identifiers to the bindings they refer
    /// to, keeping every tree's text.
    pub fn resolve_references(&self, trees: &Vec<TokenTree>, scope: &mut ScopeStack) -> (r: Vec<
        TokenTree,
    >)
        ensures
            texts_preserved(trees@, r@),
    {
        match self {
            ReferencePass::NoOp(p) => p.resolve_references(trees, scope),
            ReferencePass::Simple(p) => p.resolve_references(trees, scope),
        }
    }
}

/// Runs a language's binding pass and then its reference pass over a lexed
/// forest, each with a fresh scope stack. The forest keeps its text.
pub fn scope_tokens(trees: &Vec<TokenTree>, language: &crate::language::Language) -> (r: Vec<
    TokenTree,
>)
    ensures
        texts_preserved(trees@, r@),
{
    let mut scope = ScopeStack::new();
    let marked = language.binding_pass.identify_bindings(trees, &mut scope);
    let mut scope2 = ScopeStack::new();
    language.reference_pass.resolve_references(&marked, &mut scope2)
}

} // verus!
