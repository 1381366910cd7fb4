//! The precedence-climbing expression parser. Prefix macros apply at the
//! head of an expression; infix operator macros extend it from the left as
//! long as their binding power clears the minimum. The engine has no
//! built-in operators: it defers entirely to the declared macros.

use vstd::prelude::*;

use crate::language::Language;
use crate::macros::{ExpansionResult, Macro, MacroContext};
use crate::shape::{
    first_macro, infix_applicable, infix_pred, lemma_first_macro_skip, lemma_skip_trees,
    lemma_skip_trees_compose, prefix_applicable, prefix_pred, result_mirrors, skip_trees, spec_infix_loop,
    spec_match, spec_parse_expression, spec_parse_head, Associativity, MatchContext, MatchFailure,
    MatchResult, ParseError, Precedence, SpecMatch,
};
use crate::token::{
    forest_size, lemma_trees_view_index, lemma_trees_view_subrange, str_eq, tree_view, trees_view,
    SourceLocation, TokenStream, TokenTree,
};

verus! {

/// The first declared prefix macro whose name is the given text.
fn find_prefix_macro<'m>(macros: &'m Vec<Macro>, text: &str) -> (r: Option<&'m Macro>)
    ensures
        match r {
            Some(m) => first_macro(macros@, prefix_pred(text@)) == Some(*m),
            None => first_macro(macros@, prefix_pred(text@)) is None,
        },
{
    let ghost p = prefix_pred(text@);
    let mut i: usize = 0;
    while i < macros.len()
        invariant
            i <= macros@.len(),
            p == prefix_pred(text@),
            forall|j: int| 0 <= j < i ==> !p(macros@[j]),
        decreases macros@.len() - i,
    {
        let m = &macros[i];
        if !m.operator && str_eq(m.name.as_str(), text) {
            proof {
                lemma_first_macro_skip(macros@, p, i as int);
                assert(macros@.subrange(i as int, macros@.len() as int)[0] == macros@[i as int]);
            }
            return Some(m);
        }
        i = i + 1;
    }
    proof {
        lemma_first_macro_skip(macros@, p, macros@.len() as int);
    }
    None
}

/// The first declared infix macro whose name is the given text and whose
/// precedence clears the floor: operators below the minimum are skipped,
/// and so are left-associative operators exactly at it.
fn find_infix_macro<'m>(macros: &'m Vec<Macro>, text: &str, min: Precedence) -> (r: Option<
    &'m Macro,
>)
    ensures
        match r {
            Some(m) => first_macro(macros@, infix_pred(text@, min)) == Some(*m),
            None => first_macro(macros@, infix_pred(text@, min)) is None,
        },
{
    let ghost p = infix_pred(text@, min);
    let mut i: usize = 0;
    while i < macros.len()
        invariant
            i <= macros@.len(),
            p == infix_pred(text@, min),
            forall|j: int| 0 <= j < i ==> !p(macros@[j]),
        decreases macros@.len() - i,
    {
        let m = &macros[i];
        if m.operator && str_eq(m.name.as_str(), text) {
            let too_low = m.precedence.0 < min.0;
            let left_tie = m.precedence.0 == min.0 && matches!(m.associativity, Associativity::Left);
            if !too_low && !left_tie {
                proof {
                    lemma_first_macro_skip(macros@, p, i as int);
                    assert(macros@.subrange(i as int, macros@.len() as int)[0] == macros@[
                        i as int]);
                }
                return Some(m);
            }
        }
        i = i + 1;
    }
    proof {
        lemma_first_macro_skip(macros@, p, macros@.len() as int);
    }
    None
}

/// The head of an expression: a declared prefix macro applied to its
/// matched arguments, or one bare tree. Behaves exactly as
/// [`spec_parse_head`] says.
fn parse_head<'a>(language: &Language, stream: TokenStream<'a>) -> (r: MatchResult<'a>)
    ensures
        result_mirrors(
            spec_parse_head(language.macros@, trees_view(stream.trees@)),
            stream,
            r,
        ),
    decreases forest_size(trees_view(stream.trees@)), 1int, 0int, 0int,
{
    let ghost tv = trees_view(stream.trees@);
    let ghost ms = language.macros@;
    proof {
        lemma_trees_view_index(stream.trees@);
    }
    let k = crate::shape::stream_ws_count(&stream);
    proof {
        lemma_trees_view_subrange(stream.trees@, k as int, stream.trees@.len() as int);
    }
    if k < stream.trees.len() {
        proof {
            lemma_trees_view_subrange(stream.trees@, k + 1 as int, stream.trees@.len() as int);
            lemma_skip_trees(tv, (k + 1) as nat);
        }
        let tree = &stream.trees[k];
        match tree {
            TokenTree::Token(tok) => {
                match find_prefix_macro(&language.macros, tok.text.as_str()) {
                    Some(mac) => {
                        let sig_stream = stream.advance(k + 1);
                        match mac.signature.match_shape(sig_stream, MatchContext::Parse(language)) {
                            Ok((args, next)) => {
                                let ghost n = spec_match(
                                    mac.signature,
                                    skip_trees(tv, (k + 1) as nat),
                                    Some(ms),
                                )->Matched_consumed;
                                proof {
                                    lemma_skip_trees_compose(tv, (k + 1) as nat, n);
                                }
                                match mac.expand(args, None, &MacroContext) {
                                    ExpansionResult::Expanded(t) => Ok((t, next)),
                                    ExpansionResult::Error(msg) => Err(MatchFailure {
                                        error: ParseError {
                                            span: SourceLocation { offset: 0, len: 0 },
                                            message: msg,
                                        },
                                        rest: next,
                                    }),
                                }
                            },
                            Err(f) => {
                                proof {
                                    let at = spec_match(
                                        mac.signature,
                                        skip_trees(tv, (k + 1) as nat),
                                        Some(ms),
                                    )->Failed_at;
                                    lemma_skip_trees_compose(tv, (k + 1) as nat, at);
                                }
                                Err(f)
                            },
                        }
                    },
                    None => Ok((tree.duplicate(), stream.advance(k + 1))),
                }
            },
            _ => Ok((tree.duplicate(), stream.advance(k + 1))),
        }
    } else {
        Err(MatchFailure {
            error: ParseError {
                span: SourceLocation { offset: 0, len: 0 },
                message: "Expected expression".to_owned(),
            },
            rest: stream.advance(k),
        })
    }
}

/// Parses one expression from the stream, folding in infix operators whose
/// precedence clears `min_prec`. Behaves exactly as
/// [`spec_parse_expression`] says.
#[verifier::rlimit(100)]
pub fn parse_expression<'a>(
    language: &Language,
    stream: TokenStream<'a>,
    min_prec: Precedence,
) -> (r: MatchResult<'a>)
    ensures
        result_mirrors(
            spec_parse_expression(language.macros@, trees_view(stream.trees@), min_prec),
            stream,
            r,
        ),
    decreases forest_size(trees_view(stream.trees@)), 2int, 0int, 0int,
{
    let ghost tv = trees_view(stream.trees@);
    let ghost ms = language.macros@;
    match parse_head(language, stream) {
        Ok((head, s1)) => {
            let ghost h = spec_parse_head(ms, tv)->Matched_consumed;
            let ghost tv1 = skip_trees(tv, h);
            let ghost lhs0v = tree_view(head);
            proof {
                lemma_skip_trees(tv, h);
                assert(skip_trees(tv1, 0) =~= tv1);
            }
            let mut lhs = head;
            let mut current = s1;
            let ghost mut acc: nat = 0;
            loop
                invariant_except_break
                    ms == language.macros@,
                    tv == trees_view(stream.trees@),
                    tv1 == skip_trees(tv, h),
                    spec_parse_head(ms, tv) == (SpecMatch::Matched { result: lhs0v, consumed: h }),
                    forest_size(tv1) <= forest_size(tv),
                    trees_view(current.trees@) == skip_trees(tv1, acc),
                    spec_infix_loop(ms, lhs0v, tv1, min_prec) == crate::shape::shift_match(
                        spec_infix_loop(ms, tree_view(lhs), trees_view(current.trees@), min_prec),
                        acc,
                    ),
                ensures
                    ({
                        let sm = spec_infix_loop(ms, lhs0v, tv1, min_prec);
                        &&& sm is Matched
                        &&& sm->Matched_result == tree_view(lhs)
                        &&& trees_view(current.trees@) == skip_trees(tv1, sm->Matched_consumed)
                    }),
                decreases current.trees@.len(),
            {
                let ghost cur_tv = trees_view(current.trees@);
                proof {
                    lemma_trees_view_index(current.trees@);
                }
                let k = crate::shape::stream_ws_count(&current);
                if k >= current.trees.len() {
                    break ;
                }
                let op_text: String = match &current.trees[k] {
                    TokenTree::Token(tok) => tok.text.clone(),
                    _ => {
                        break ;
                    },
                };
                match find_infix_macro(&language.macros, op_text.as_str(), min_prec) {
                    Some(mac) => {
                        proof {
                            lemma_trees_view_subrange(
                                current.trees@,
                                k + 1 as int,
                                current.trees@.len() as int,
                            );
                            lemma_skip_trees(cur_tv, (k + 1) as nat);
                            lemma_skip_trees_compose(tv1, acc, (k + 1) as nat);
                            lemma_skip_trees(tv1, acc);
                        }
                        let sig_stream = current.advance(k + 1);
                        match mac.signature.match_shape(
                            sig_stream,
                            MatchContext::Parse(language),
                        ) {
                            Ok((args, next)) => {
                                let ghost n = spec_match(
                                    mac.signature,
                                    skip_trees(cur_tv, (k + 1) as nat),
                                    Some(ms),
                                )->Matched_consumed;
                                proof {
                                    lemma_skip_trees_compose(cur_tv, (k + 1) as nat, n);
                                    lemma_skip_trees_compose(tv1, acc, (k + 1 + n) as nat);
                                    lemma_trees_view_index(next.trees@);
                                    assert(trees_view(next.trees@).len() < cur_tv.len());
                                }
                                match mac.expand(args, Some(lhs), &MacroContext) {
                                    ExpansionResult::Expanded(t) => {
                                        proof {
                                            acc = (acc + k + 1 + n) as nat;
                                        }
                                        lhs = t;
                                        current = next;
                                    },
                                    ExpansionResult::Error(msg) => {
                                        proof {
                                            lemma_skip_trees_compose(
                                                tv,
                                                h,
                                                (acc + k + 1 + n) as nat,
                                            );
                                        }
                                        return Err(MatchFailure {
                                            error: ParseError {
                                                span: SourceLocation { offset: 0, len: 0 },
                                                message: msg,
                                            },
                                            rest: next,
                                        });
                                    },
                                }
                            },
                            Err(f) => {
                                proof {
                                    let at = spec_match(
                                        mac.signature,
                                        skip_trees(cur_tv, (k + 1) as nat),
                                        Some(ms),
                                    )->Failed_at;
                                    lemma_skip_trees_compose(cur_tv, (k + 1) as nat, at);
                                    lemma_skip_trees_compose(tv1, acc, (k + 1 + at) as nat);
                                    lemma_skip_trees_compose(tv, h, (acc + k + 1 + at) as nat);
                                }
                                return Err(f);
                            },
                        }
                    },
                    None => {
                        break ;
                    },
                }
            }
            proof {
                let sm = spec_infix_loop(ms, lhs0v, tv1, min_prec);
                lemma_skip_trees_compose(tv, h, sm->Matched_consumed);
            }
            Ok((lhs, current))
        },
        Err(f) => Err(f),
    }
}

/// A parser over a token stream for a given language.
pub struct Parser<'a> {
    pub stream: TokenStream<'a>,
    pub language: &'a Language,
}

impl<'a> Parser<'a> {
    pub fn new(stream: TokenStream<'a>, language: &'a Language) -> (r: Self)
        ensures
            r.stream == stream,
            r.language == language,
    {
        Self { stream, language }
    }

    /// Parses one expression from the start of the stream at the lowest
    /// precedence; any failure surfaces as a plain message.
    pub fn parse(&mut self) -> (r: Result<TokenTree, String>)
        ensures
            *final(self) == *old(self),
            match spec_parse_expression(
                old(self).language.macros@,
                trees_view(old(self).stream.trees@),
                Precedence(0),
            ) {
                SpecMatch::Matched { result, .. } => r is Ok && tree_view(r->Ok_0) == result,
                SpecMatch::Failed { .. } => r is Err && r->Err_0@ == "Parse failed"@,
            },
    {
        match parse_expression(self.language, self.stream, Precedence(0)) {
            Ok((tree, _)) => Ok(tree),
            Err(_) => Err("Parse failed".to_owned()),
        }
    }
}

} // verus!
