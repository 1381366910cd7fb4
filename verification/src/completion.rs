//! Cursor-position code completion: lex the text, build the scope at the
//! cursor, and offer every visible variable, erasing whatever part of an
//! identifier is already typed.

use vstd::prelude::*;

use crate::language::Language;
use crate::scoping::{spec_collected_names, spec_names, ScopeStack};
use crate::shape::{CompletionItem, CompletionKind, SpecCompletion};
use crate::token::{
    forest_size, lemma_tree_size_pos, lemma_trees_view_index, tree_size, tree_view, trees_view,
    SpecToken, SpecTree, Token, TokenTree,
};

verus! {

/// The token that the cursor offset sits in, inclusive of each token's
/// trailing edge: the first such token in order, searching delimited nodes
/// whose span holds the offset and transparent groups recursively.
pub open spec fn spec_find_token(ts: Seq<SpecTree>, offset: usize) -> Option<SpecToken>
    decreases forest_size(ts),
{
    if ts.len() == 0 {
        None
    } else {
        proof {
            lemma_tree_size_pos(ts[0]);
        }
        let head: Option<SpecToken> = match ts[0] {
            SpecTree::Token(t) => if t.location.offset <= offset <= t.location.offset
                + t.location.len {
                Some(t)
            } else {
                None
            },
            SpecTree::Delimited(_, cs, loc, _) => if loc.offset <= offset <= loc.offset
                + loc.len {
                spec_find_token(cs, offset)
            } else {
                None
            },
            SpecTree::Group(cs) => spec_find_token(cs, offset),
            _ => None,
        };
        match head {
            Some(t) => Some(t),
            None => spec_find_token(ts.drop_first(), offset),
        }
    }
}

/// The deepest token whose span holds `offset`, inclusive of each token's
/// trailing edge, searching delimited and transparent groups recursively.
/// Behaves exactly as [`spec_find_token`] says.
pub fn find_token_at_offset<'t>(tokens: &'t Vec<TokenTree>, offset: usize) -> (r: Option<
    &'t Token,
>)
    ensures
        match r {
            Some(t) => spec_find_token(trees_view(tokens@), offset) == Some(t@),
            None => spec_find_token(trees_view(tokens@), offset) is None,
        },
    decreases *tokens,
{
    let ghost tv = trees_view(tokens@);
    proof {
        lemma_trees_view_index(tokens@);
        assert(tv.subrange(0, tv.len() as int) =~= tv);
    }
    let mut i: usize = 0;
    while i < tokens.len()
        invariant
            i <= tokens@.len(),
            tv == trees_view(tokens@),
            tv.len() == tokens@.len(),
            forall|j: int| 0 <= j < tokens@.len() ==> tv[j] == tree_view(
                #[trigger] tokens@[j],
            ),
            spec_find_token(tv, offset) == spec_find_token(
                tv.subrange(i as int, tv.len() as int),
                offset,
            ),
        decreases tokens@.len() - i,
    {
        proof {
            assert(tv.subrange(i as int, tv.len() as int)[0] == tv[i as int]);
            assert(tv.subrange(i as int, tv.len() as int).drop_first() =~= tv.subrange(
                i + 1,
                tv.len() as int,
            ));
        }
        match &tokens[i] {
            TokenTree::Token(t) => {
                if t.location.contains(offset) {
                    return Some(t);
                }
            },
            TokenTree::Delimited(_, children, loc, _) => {
                if loc.contains(offset) {
                    match find_token_at_offset(children, offset) {
                        Some(t) => {
                            return Some(t);
                        },
                        None => {},
                    }
                }
            },
            TokenTree::Group(children) => {
                match find_token_at_offset(children, offset) {
                    Some(t) => {
                        return Some(t);
                    },
                    None => {},
                }
            },
            _ => {},
        }
        i = i + 1;
    }
    proof {
        assert(tv.subrange(tv.len() as int, tv.len() as int) =~= Seq::<SpecTree>::empty());
    }
    None
}

/// How many characters the cursor sits past the start of the identifier it
/// is in: what a suggestion must erase before inserting. Zero when the
/// cursor is not in (or at the end of) an identifier.
pub open spec fn spec_delete_backwards(ts: Seq<SpecTree>, offset: usize) -> usize {
    match spec_find_token(ts, offset) {
        Some(t) => if t.kind is Identifier && t.location.offset <= offset {
            (offset - t.location.offset) as usize
        } else {
            0
        },
        None => 0,
    }
}

/// One variable suggestion per name, in order, all erasing `db` characters.
pub open spec fn spec_completion_items(names: Seq<Seq<char>>, db: usize) -> Seq<SpecCompletion> {
    names.map_values(
        |n: Seq<char>|
            SpecCompletion {
                label: n,
                kind: CompletionKind::Variable,
                detail: None,
                delete_backwards: db,
            },
    )
}

/// The variables visible at `offset`: one suggestion per name the
/// language's binding pass has in scope there, in definition order, each
/// erasing the part of the identifier already typed before the cursor.
pub fn find_completions(
    tokens: &Vec<TokenTree>,
    language: &Language,
    offset: usize,
) -> (r: Vec<CompletionItem>)
    ensures
        r.deep_view() == spec_completion_items(
            spec_collected_names(language.binding_pass, trees_view(tokens@), offset),
            spec_delete_backwards(trees_view(tokens@), offset),
        ),
{
    let mut scope = ScopeStack::new();
    proof {
        let fresh = scope.spec_scopes();
        assert(fresh.len() == 1);
        assert(fresh.last().len() == 0);
        crate::scoping::lemma_names_empty_stack(fresh);
    }
    language.binding_pass.collect_scope_at(tokens, offset, &mut scope);
    let ghost collected = spec_collected_names(language.binding_pass, trees_view(tokens@), offset);
    proof {
        assert(Seq::<Seq<char>>::empty() + collected =~= collected);
    }

    // How much of an already-typed identifier the cursor sits in must be
    // erased before inserting a suggestion.
    let mut delete_backwards: usize = 0;
    match find_token_at_offset(tokens, offset) {
        Some(token) => {
            if token.kind.is_identifier() && token.location.offset <= offset {
                delete_backwards = offset - token.location.offset;
            }
        },
        None => {},
    }
    proof {
        assert(delete_backwards == spec_delete_backwards(trees_view(tokens@), offset));
    }

    let names = scope.names();
    proof {
        assert(names.deep_view() == collected);
        assert(collected.subrange(0, 0) =~= Seq::<Seq<char>>::empty());
        assert(spec_completion_items(collected.subrange(0, 0), delete_backwards)
            =~= Seq::<SpecCompletion>::empty());
    }
    let mut items: Vec<CompletionItem> = Vec::new();
    let mut i: usize = 0;
    while i < names.len()
        invariant
            i <= names@.len(),
            names.deep_view() == collected,
            names@.len() == collected.len(),
            items.deep_view() == spec_completion_items(
                collected.subrange(0, i as int),
                delete_backwards,
            ),
        decreases names@.len() - i,
    {
        let ghost before = items.deep_view();
        items.push(
            CompletionItem {
                label: names[i].clone(),
                kind: CompletionKind::Variable,
                detail: None,
                delete_backwards,
            },
        );
        proof {
            assert(names@[i as int]@ == collected[i as int]);
            assert(items.deep_view() =~= before.push(
                SpecCompletion {
                    label: collected[i as int],
                    kind: CompletionKind::Variable,
                    detail: None,
                    delete_backwards,
                },
            ));
            assert(spec_completion_items(collected.subrange(0, i + 1 as int), delete_backwards)
                =~= spec_completion_items(collected.subrange(0, i as int), delete_backwards).push(
                SpecCompletion {
                    label: collected[i as int],
                    kind: CompletionKind::Variable,
                    detail: None,
                    delete_backwards,
                },
            ));
        }
        i = i + 1;
    }
    proof {
        assert(collected.subrange(0, collected.len() as int) =~= collected);
    }
    items
}

} // verus!
