//! The recursive, delimiter-aware lexer. It never fails: input that no atom
//! recognises coalesces into `Unknown` tokens, and a delimiter whose close
//! marker never appears still produces an (unclosed) delimited node. The
//! produced forest reconstructs the input text exactly, and every node's
//! span sits where its text does.

use vstd::prelude::*;

use crate::atom::{
    atom_parse_post, atom_spec_parse, lemma_atom_parse_bounds, Atom, AtomKind, SpecKind,
};
use crate::language::{spec_classify, Delimiter, Language};
use crate::token::{
    forest_lexed, forest_text, forest_wf, lemma_forest_lexed_push, lemma_forest_text_push,
    lemma_forest_wf_push, lemma_trees_view_push, spec_starts_with, str_starts_with, tree_text,
    tree_view, tree_wf, trees_view, Cursor, SourceLocation, SpecToken, SpecTree, Token, TokenTree,
};

verus! {

/// The text held by a pending unknown run.
pub open spec fn pending_text(p: Option<(usize, String)>) -> Seq<char> {
    match p {
        Some(q) => q.1@,
        None => Seq::empty(),
    }
}

/// The `Unknown` token that flushing a pending run `q` produces.
pub open spec fn unknown_token(q: (usize, String)) -> SpecTree {
    SpecTree::Token(
        SpecToken {
            kind: SpecKind::Other("Unknown"@),
            text: q.1@,
            location: SourceLocation { offset: q.0, len: q.1@.len() as usize },
            atom_index: None,
            binding: None,
        },
    )
}

/// Turns the pending unknown run, if any, into a single `Unknown` token at
/// the run's recorded offset.
fn flush_unknown(trees: &mut Vec<TokenTree>, pending: &mut Option<(usize, String)>)
    ensures
        (*final(pending)) is None,
        match *old(pending) {
            Some(q) => trees_view(final(trees)@) == trees_view(old(trees)@).push(unknown_token(q)),
            None => trees_view(final(trees)@) == trees_view(old(trees)@),
        },
{
    match pending.take() {
        Some(q) => {
            let (start, text) = q;
            let len = text.as_str().unicode_len();
            let tok = Token {
                kind: AtomKind::Other("Unknown".to_owned()),
                text,
                location: SourceLocation { offset: start, len },
                atom_index: None,
                binding: None,
            };
            let ghost before = trees@;
            let node = TokenTree::Token(tok);
            trees.push(node);
            proof {
                lemma_trees_view_push(before, node);
            }
        },
        None => {},
    }
}

/// After a flush, the forest alone carries the text that the forest and the
/// pending run carried together, still well-formed and lexer-shaped.
proof fn lemma_flush(
    tv0: Seq<SpecTree>,
    tv1: Seq<SpecTree>,
    pend: Option<(usize, String)>,
    start_off: nat,
    cursor_off: nat,
)
    requires
        cursor_off <= usize::MAX,
        forest_wf(tv0, start_off),
        forest_lexed(tv0),
        match pend {
            Some(q) => {
                &&& q.0 == start_off + forest_text(tv0).len()
                &&& q.0 + q.1@.len() == cursor_off
            },
            None => cursor_off == start_off + forest_text(tv0).len(),
        },
        tv1 == match pend {
            Some(q) => tv0.push(unknown_token(q)),
            None => tv0,
        },
    ensures
        forest_text(tv1) == forest_text(tv0) + pending_text(pend),
        cursor_off == start_off + forest_text(tv1).len(),
        forest_wf(tv1, start_off),
        forest_lexed(tv1),
{
    match pend {
        Some(q) => {
            let tok = unknown_token(q);
            assert(tree_text(tok) == q.1@);
            assert(tree_wf(tok, start_off + forest_text(tv0).len()));
            lemma_forest_text_push(tv0, tok);
            lemma_forest_wf_push(tv0, tok, start_off);
            lemma_forest_lexed_push(tv0, tok);
        },
        None => {
            assert(forest_text(tv1) =~= forest_text(tv0) + pending_text(pend));
        },
    }
}

/// Appending one well-placed node to a well-formed forest extends its text
/// by the node's slice of the input and keeps it well-formed.
proof fn lemma_push_step(tv1: Seq<SpecTree>, nv: SpecTree, s: Seq<char>, start_off: nat, c0: int, c_end: int)
    requires
        0 <= c0 <= c_end <= s.len(),
        forest_text(tv1) == s.subrange(0, c0),
        forest_wf(tv1, start_off),
        forest_lexed(tv1),
        tree_text(nv) == s.subrange(c0, c_end),
        tree_wf(nv, (start_off + c0) as nat),
        crate::token::tree_lexed(nv),
    ensures
        forest_text(tv1.push(nv)) == s.subrange(0, c_end),
        forest_wf(tv1.push(nv), start_off),
        forest_lexed(tv1.push(nv)),
{
    lemma_forest_text_push(tv1, nv);
    lemma_forest_wf_push(tv1, nv, start_off);
    lemma_forest_lexed_push(tv1, nv);
    assert(forest_text(tv1.push(nv)) =~= s.subrange(0, c_end));
}

/// The text after its first `n` characters; all of it is gone when `n`
/// exceeds the length.
pub open spec fn skip_chars(s: Seq<char>, n: nat) -> Seq<char> {
    if n <= s.len() {
        s.subrange(n as int, s.len() as int)
    } else {
        Seq::empty()
    }
}

/// Skipping never grows the text, and skipping at least one character of a
/// non-empty text strictly shrinks it.
pub proof fn lemma_skip_chars(s: Seq<char>, n: nat)
    ensures
        skip_chars(s, n).len() <= s.len(),
        n > 0 && s.len() > 0 ==> skip_chars(s, n).len() < s.len(),
{
}

/// Skipping twice skips the sum.
pub proof fn lemma_skip_chars_compose(s: Seq<char>, a: nat, b: nat)
    ensures
        skip_chars(skip_chars(s, a), b) == skip_chars(s, a + b),
{
    assert(skip_chars(skip_chars(s, a), b) =~= skip_chars(s, a + b));
}

/// Whether a delimiter can open at the start of the text: both markers
/// non-empty (degenerate pairs never match: they could not make progress)
/// and the open marker a prefix of the text.
pub open spec fn open_delim_matches(d: Delimiter, s: Seq<char>) -> bool {
    d@.open.len() > 0 && d@.close.len() > 0 && spec_starts_with(s, d@.open)
}

/// The first delimiter, in declaration order, that can open at the start of
/// the text.
pub open spec fn spec_open_delimiter(ds: Seq<Delimiter>, s: Seq<char>) -> Option<Delimiter>
    decreases ds,
{
    if ds.len() == 0 {
        None
    } else if open_delim_matches(ds[0], s) {
        Some(ds[0])
    } else {
        spec_open_delimiter(ds.drop_first(), s)
    }
}

/// A scan that found no opener among the first `i` delimiters finds
/// whatever the rest holds.
pub proof fn lemma_spec_open_delimiter_skip(ds: Seq<Delimiter>, s: Seq<char>, i: int)
    requires
        0 <= i <= ds.len(),
        forall|j: int| 0 <= j < i ==> !open_delim_matches(ds[j], s),
    ensures
        spec_open_delimiter(ds, s) == spec_open_delimiter(ds.subrange(i, ds.len() as int), s),
    decreases i,
{
    if i == 0 {
        assert(ds.subrange(0, ds.len() as int) =~= ds);
    } else {
        assert(!open_delim_matches(ds[0], s));
        assert(ds.drop_first().subrange(i - 1, ds.drop_first().len() as int) =~= ds.subrange(
            i,
            ds.len() as int,
        ));
        lemma_spec_open_delimiter_skip(ds.drop_first(), s, i - 1);
    }
}

/// What the delimiter scan finds does open here.
pub proof fn lemma_spec_open_delimiter_matches(ds: Seq<Delimiter>, s: Seq<char>)
    ensures
        spec_open_delimiter(ds, s) is Some ==> open_delim_matches(
            spec_open_delimiter(ds, s)->0,
            s,
        ),
    decreases ds,
{
    if ds.len() > 0 && !open_delim_matches(ds[0], s) {
        lemma_spec_open_delimiter_matches(ds.drop_first(), s);
    }
}

/// The index of the first atom, in declaration order, that matches at the
/// start of the text.
pub open spec fn spec_first_atom(atoms: Seq<Atom>, s: Seq<char>) -> Option<int>
    decreases atoms,
{
    if atoms.len() == 0 {
        None
    } else if atom_spec_parse(atoms[0]@, s) is Some {
        Some(0)
    } else {
        match spec_first_atom(atoms.drop_first(), s) {
            Some(i) => Some(i + 1),
            None => None,
        }
    }
}

/// A scan that found no match among the first `i` atoms finds whatever the
/// rest holds, shifted by `i`.
pub proof fn lemma_spec_first_atom_skip(atoms: Seq<Atom>, s: Seq<char>, i: int)
    requires
        0 <= i <= atoms.len(),
        forall|j: int| 0 <= j < i ==> atom_spec_parse((#[trigger] atoms[j])@, s) is None,
    ensures
        spec_first_atom(atoms, s) == match spec_first_atom(
            atoms.subrange(i, atoms.len() as int),
            s,
        ) {
            Some(k) => Some(i + k),
            None => None::<int>,
        },
    decreases i,
{
    if i == 0 {
        assert(atoms.subrange(0, atoms.len() as int) =~= atoms);
    } else {
        assert(atom_spec_parse(atoms[0]@, s) is None);
        assert(atoms.drop_first().subrange(i - 1, atoms.drop_first().len() as int) =~=
            atoms.subrange(i, atoms.len() as int));
        assert forall|j: int|
            0 <= j < i - 1 implies atom_spec_parse(
            (#[trigger] atoms.drop_first()[j])@,
            s,
        ) is None by {
            assert(atoms.drop_first()[j] == atoms[j + 1]);
        }
        lemma_spec_first_atom_skip(atoms.drop_first(), s, i - 1);
    }
}

/// What the atom scan finds does match.
pub proof fn lemma_spec_first_atom_props(atoms: Seq<Atom>, s: Seq<char>)
    ensures
        spec_first_atom(atoms, s) is Some ==> {
            let i = spec_first_atom(atoms, s)->0;
            &&& 0 <= i < atoms.len()
            &&& atom_spec_parse(atoms[i]@, s) is Some
        },
    decreases atoms,
{
    if atoms.len() > 0 && !(atom_spec_parse(atoms[0]@, s) is Some) {
        lemma_spec_first_atom_props(atoms.drop_first(), s);
        if spec_first_atom(atoms.drop_first(), s) is Some {
            let k = spec_first_atom(atoms.drop_first(), s)->0;
            assert(atoms.drop_first()[k] == atoms[k + 1]);
        }
    }
}

/// The token a pending unknown run flushes into, at the spec level.
pub open spec fn spec_flush(p: Option<(usize, Seq<char>)>) -> Seq<SpecTree> {
    match p {
        Some(q) => seq![
            SpecTree::Token(
                SpecToken {
                    kind: SpecKind::Other("Unknown"@),
                    text: q.1,
                    location: SourceLocation { offset: q.0, len: q.1.len() as usize },
                    atom_index: None,
                    binding: None,
                },
            ),
        ],
        None => Seq::empty(),
    }
}

/// The mathematical value of a pending unknown run.
pub open spec fn pending_view(p: Option<(usize, String)>) -> Option<(usize, Seq<char>)> {
    match p {
        Some(q) => Some((q.0, q.1@)),
        None => None,
    }
}

/// The mathematical value of the previous-token state.
pub open spec fn prev_view(p: Option<Token>) -> Option<SpecToken> {
    match p {
        Some(t) => Some(t@),
        None => None,
    }
}

/// The mathematical value of a terminator argument.
pub open spec fn term_view(t: Option<&Delimiter>) -> Option<Delimiter> {
    match t {
        Some(d) => Some(*d),
        None => None,
    }
}

/// What lexing produces, step by step, from a suffix of the input: the
/// forest and the number of characters consumed. At each position, in
/// order: the enclosing terminator stops the group; the first delimiter
/// whose open marker matches opens a nested group, closed exactly when its
/// close marker follows the recursively lexed interior; the first matching
/// atom (in declaration order) yields one token carrying that atom's index,
/// identifiers re-classified against the previous non-whitespace token; and
/// a character nothing matches joins the pending unknown run, which is
/// flushed as a single token when a real match resumes or the group ends.
#[verifier::opaque]
pub open spec fn spec_lex_group(
    atoms: Seq<Atom>,
    delims: Seq<Delimiter>,
    kws: Seq<Seq<char>>,
    text: Seq<char>,
    offset: nat,
    terminator: Option<Delimiter>,
    prev: Option<SpecToken>,
    pending: Option<(usize, Seq<char>)>,
) -> (Seq<SpecTree>, nat)
    decreases text.len(),
{
    if text.len() == 0 {
        (spec_flush(pending), 0)
    } else if terminator is Some && spec_starts_with(text, terminator->0@.close) {
        (spec_flush(pending), 0)
    } else {
        match spec_open_delimiter(delims, text) {
            Some(d) => {
                let open_len = d@.open.len();
                proof {
                    lemma_spec_open_delimiter_matches(delims, text);
                    lemma_skip_chars(text, open_len);
                }
                let (inner, ic) = spec_lex_group(
                    atoms,
                    delims,
                    kws,
                    skip_chars(text, open_len),
                    (offset + open_len) as nat,
                    Some(d),
                    None,
                    None,
                );
                let rest1 = skip_chars(text, (open_len + ic) as nat);
                let closed = spec_starts_with(rest1, d@.close);
                let node_len: nat = if closed {
                    (open_len + ic + d@.close.len()) as nat
                } else {
                    (open_len + ic) as nat
                };
                let node = SpecTree::Delimited(
                    d@,
                    inner,
                    SourceLocation { offset: offset as usize, len: node_len as usize },
                    closed,
                );
                proof {
                    lemma_skip_chars(text, node_len);
                }
                let (rest_trees, rc) = spec_lex_group(
                    atoms,
                    delims,
                    kws,
                    skip_chars(text, node_len),
                    (offset + node_len) as nat,
                    terminator,
                    None,
                    None,
                );
                (spec_flush(pending) + seq![node] + rest_trees, (node_len + rc) as nat)
            },
            None => match spec_first_atom(atoms, text) {
                Some(ai) => {
                    proof {
                        lemma_spec_first_atom_props(atoms, text);
                        lemma_atom_parse_bounds(atoms[spec_first_atom(atoms, text)->0]@, text);
                    }
                    let parsed = atom_spec_parse(atoms[ai]@, text)->0;
                    let n = parsed.1;
                    let raw = SpecToken {
                        kind: parsed.0,
                        text: text.subrange(0, n as int),
                        location: SourceLocation { offset: offset as usize, len: n as usize },
                        atom_index: Some(ai as usize),
                        binding: None,
                    };
                    let ck = spec_classify(kws, prev, raw);
                    let tok = SpecToken {
                        kind: ck,
                        text: raw.text,
                        location: raw.location,
                        atom_index: raw.atom_index,
                        binding: None,
                    };
                    let new_prev: Option<SpecToken> = if ck is Whitespace {
                        prev
                    } else {
                        Some(tok)
                    };
                    proof {
                        lemma_skip_chars(text, n);
                    }
                    let (rest_trees, rc) = spec_lex_group(
                        atoms,
                        delims,
                        kws,
                        skip_chars(text, n),
                        (offset + n) as nat,
                        terminator,
                        new_prev,
                        None,
                    );
                    (
                        spec_flush(pending) + seq![SpecTree::Token(tok)] + rest_trees,
                        (n + rc) as nat,
                    )
                },
                None => {
                    let c = text[0];
                    let new_pending: Option<(usize, Seq<char>)> = match pending {
                        Some(q) => Some((q.0, q.1.push(c))),
                        None => Some((offset as usize, seq![c])),
                    };
                    let (rest_trees, rc) = spec_lex_group(
                        atoms,
                        delims,
                        kws,
                        text.drop_first(),
                        (offset + 1) as nat,
                        terminator,
                        prev,
                        new_pending,
                    );
                    (rest_trees, (1 + rc) as nat)
                },
            },
        }
    }
}

/// What lexing a whole document produces.
pub open spec fn spec_lex(language: Language, input: Seq<char>) -> Seq<SpecTree> {
    spec_lex_group(
        language.atoms@,
        language.delimiters@,
        language.variable_rules.spec_keywords(),
        input,
        0,
        None,
        None,
        None,
    ).0
}

/// The first delimiter, in declaration order, whose open marker starts the
/// remaining text. Delimiters with an empty open or close marker never
/// match: they could not make progress.
fn find_open_delimiter(rest: &str, delimiters: &Vec<Delimiter>) -> (r: Option<usize>)
    ensures
        match r {
            Some(i) => {
                &&& i < delimiters@.len()
                &&& open_delim_matches(delimiters@[i as int], rest@)
                &&& spec_open_delimiter(delimiters@, rest@) == Some(delimiters@[i as int])
            },
            None => spec_open_delimiter(delimiters@, rest@) is None,
        },
{
    let mut i: usize = 0;
    while i < delimiters.len()
        invariant
            i <= delimiters@.len(),
            forall|j: int| 0 <= j < i ==> !open_delim_matches(delimiters@[j], rest@),
        decreases delimiters@.len() - i,
    {
        let d = &delimiters[i];
        if d.open.unicode_len() > 0 && d.close.unicode_len() > 0 && str_starts_with(rest, d.open) {
            proof {
                lemma_spec_open_delimiter_skip(delimiters@, rest@, i as int);
                assert(delimiters@.subrange(i as int, delimiters@.len() as int)[0]
                    == delimiters@[i as int]);
            }
            return Some(i);
        }
        i = i + 1;
    }
    proof {
        lemma_spec_open_delimiter_skip(delimiters@, rest@, delimiters@.len() as int);
        assert(delimiters@.subrange(delimiters@.len() as int, delimiters@.len() as int)
            =~= Seq::<Delimiter>::empty());
    }
    None
}

/// The first atom, in declaration order, that parses a token at the cursor,
/// together with its index in the language's atom list.
fn try_atoms<'a>(cursor: Cursor<'a>, language: &Language) -> (r: Option<(
    Token,
    Cursor<'a>,
    usize,
)>)
    requires
        cursor.offset + cursor.rest@.len() <= usize::MAX,
    ensures
        match r {
            Some(t) => {
                &&& t.2 < language.atoms@.len()
                &&& spec_first_atom(language.atoms@, cursor.rest@) == Some(t.2 as int)
                &&& atom_parse_post(language.atoms@[t.2 as int]@, cursor, Some((t.0, t.1)))
            },
            None => spec_first_atom(language.atoms@, cursor.rest@) is None,
        },
{
    let mut i: usize = 0;
    while i < language.atoms.len()
        invariant
            i <= language.atoms@.len(),
            cursor.offset + cursor.rest@.len() <= usize::MAX,
            forall|j: int|
                0 <= j < i ==> atom_spec_parse(
                    (#[trigger] language.atoms@[j])@,
                    cursor.rest@,
                ) is None,
        decreases language.atoms@.len() - i,
    {
        match language.atoms[i].parse(cursor) {
            Some((tok, next)) => {
                proof {
                    lemma_spec_first_atom_skip(language.atoms@, cursor.rest@, i as int);
                    assert(language.atoms@.subrange(i as int, language.atoms@.len() as int)[0]
                        == language.atoms@[i as int]);
                }
                return Some((tok, next, i));
            },
            None => {},
        }
        i = i + 1;
    }
    proof {
        lemma_spec_first_atom_skip(language.atoms@, cursor.rest@, language.atoms@.len() as int);
        assert(language.atoms@.subrange(language.atoms@.len() as int, language.atoms@.len() as int)
            =~= Seq::<Atom>::empty());
    }
    None
}

/// Lexes text into a forest of trees, exactly as [`spec_lex`] says: which
/// atom produces each token and in what order, how unknown runs coalesce,
/// and when a delimited node is closed. The forest's text is exactly the
/// input, every span sits where its text does, and only tokens and
/// delimited nodes appear: the lexer never fails and never loses input.
pub fn lex(input: &str, language: &Language) -> (trees: Vec<TokenTree>)
    ensures
        trees_view(trees@) == spec_lex(*language, input@),
        forest_text(trees_view(trees@)) == input@,
        forest_wf(trees_view(trees@), 0),
        forest_lexed(trees_view(trees@)),
{
    let n = input.unicode_len();
    let cursor = Cursor::new(input);
    proof {
        assert(cursor.offset + cursor.rest@.len() == n as nat);
    }
    let (trees, end) = lex_group(cursor, language, None);
    proof {
        assert(forest_text(trees_view(trees@)) =~= input@);
    }
    trees
}

/// One mirror step: at the terminator or the end of the input, the group
/// ends with the pending run flushed.
proof fn lemma_spec_lex_stop(
    atoms: Seq<Atom>,
    delims: Seq<Delimiter>,
    kws: Seq<Seq<char>>,
    text: Seq<char>,
    offset: nat,
    terminator: Option<Delimiter>,
    prev: Option<SpecToken>,
    pending: Option<(usize, Seq<char>)>,
)
    requires
        text.len() == 0 || (terminator is Some && spec_starts_with(text, terminator->0@.close)),
    ensures
        spec_lex_group(atoms, delims, kws, text, offset, terminator, prev, pending) == (
            spec_flush(pending),
            0nat,
        ),
{
    reveal(spec_lex_group);
}

/// One mirror step: a delimiter opens, its interior is lexed recursively,
/// and the group continues after the node.
proof fn lemma_spec_lex_delim(
    atoms: Seq<Atom>,
    delims: Seq<Delimiter>,
    kws: Seq<Seq<char>>,
    text: Seq<char>,
    offset: nat,
    terminator: Option<Delimiter>,
    prev: Option<SpecToken>,
    pending: Option<(usize, Seq<char>)>,
    d: Delimiter,
)
    requires
        text.len() > 0,
        !(terminator is Some && spec_starts_with(text, terminator->0@.close)),
        spec_open_delimiter(delims, text) == Some(d),
    ensures
        ({
            let open_len = d@.open.len();
            let ip = spec_lex_group(
                atoms,
                delims,
                kws,
                skip_chars(text, open_len),
                (offset + open_len) as nat,
                Some(d),
                None,
                None,
            );
            let closed = spec_starts_with(skip_chars(text, (open_len + ip.1) as nat), d@.close);
            let node_len: nat = if closed {
                (open_len + ip.1 + d@.close.len()) as nat
            } else {
                (open_len + ip.1) as nat
            };
            let node = SpecTree::Delimited(
                d@,
                ip.0,
                SourceLocation { offset: offset as usize, len: node_len as usize },
                closed,
            );
            let cont = spec_lex_group(
                atoms,
                delims,
                kws,
                skip_chars(text, node_len),
                (offset + node_len) as nat,
                terminator,
                None,
                None,
            );
            spec_lex_group(atoms, delims, kws, text, offset, terminator, prev, pending) == (
                spec_flush(pending) + seq![node] + cont.0,
                (node_len + cont.1) as nat,
            )
        }),
{
    reveal(spec_lex_group);
}

/// One mirror step: the first matching atom yields one classified token.
proof fn lemma_spec_lex_atom(
    atoms: Seq<Atom>,
    delims: Seq<Delimiter>,
    kws: Seq<Seq<char>>,
    text: Seq<char>,
    offset: nat,
    terminator: Option<Delimiter>,
    prev: Option<SpecToken>,
    pending: Option<(usize, Seq<char>)>,
    ai: int,
)
    requires
        text.len() > 0,
        !(terminator is Some && spec_starts_with(text, terminator->0@.close)),
        spec_open_delimiter(delims, text) is None,
        spec_first_atom(atoms, text) == Some(ai),
    ensures
        ({
            let parsed = atom_spec_parse(atoms[ai]@, text)->0;
            let raw = SpecToken {
                kind: parsed.0,
                text: text.subrange(0, parsed.1 as int),
                location: SourceLocation { offset: offset as usize, len: parsed.1 as usize },
                atom_index: Some(ai as usize),
                binding: None,
            };
            let ck = spec_classify(kws, prev, raw);
            let tok = SpecToken {
                kind: ck,
                text: raw.text,
                location: raw.location,
                atom_index: raw.atom_index,
                binding: None,
            };
            let new_prev: Option<SpecToken> = if ck is Whitespace {
                prev
            } else {
                Some(tok)
            };
            let cont = spec_lex_group(
                atoms,
                delims,
                kws,
                skip_chars(text, parsed.1),
                (offset + parsed.1) as nat,
                terminator,
                new_prev,
                None,
            );
            spec_lex_group(atoms, delims, kws, text, offset, terminator, prev, pending) == (
                spec_flush(pending) + seq![SpecTree::Token(tok)] + cont.0,
                (parsed.1 + cont.1) as nat,
            )
        }),
{
    reveal(spec_lex_group);
}

/// One mirror step: a character nothing matches joins the pending run.
proof fn lemma_spec_lex_unknown(
    atoms: Seq<Atom>,
    delims: Seq<Delimiter>,
    kws: Seq<Seq<char>>,
    text: Seq<char>,
    offset: nat,
    terminator: Option<Delimiter>,
    prev: Option<SpecToken>,
    pending: Option<(usize, Seq<char>)>,
)
    requires
        text.len() > 0,
        !(terminator is Some && spec_starts_with(text, terminator->0@.close)),
        spec_open_delimiter(delims, text) is None,
        spec_first_atom(atoms, text) is None,
    ensures
        ({
            let new_pending: Option<(usize, Seq<char>)> = match pending {
                Some(q) => Some((q.0, q.1.push(text[0]))),
                None => Some((offset as usize, seq![text[0]])),
            };
            let cont = spec_lex_group(
                atoms,
                delims,
                kws,
                text.drop_first(),
                (offset + 1) as nat,
                terminator,
                prev,
                new_pending,
            );
            spec_lex_group(atoms, delims, kws, text, offset, terminator, prev, pending) == (
                cont.0,
                (1 + cont.1) as nat,
            )
        }),
{
    reveal(spec_lex_group);
}

/// Lexes one delimited group whose open marker starts at the cursor:
/// recursively lexes the interior, consumes the close marker when it
/// follows, and otherwise leaves the node unclosed, spanning to wherever
/// the interior stopped. Returns the node and the cursor after it.
fn lex_delimited<'a>(cursor: Cursor<'a>, language: &Language, di: usize) -> (r: (
    TokenTree,
    Cursor<'a>,
))
    requires
        cursor.offset + cursor.rest@.len() <= usize::MAX,
        di < language.delimiters@.len(),
        open_delim_matches(language.delimiters@[di as int], cursor.rest@),
    ensures
        ({
            let d = language.delimiters@[di as int];
            let text = cursor.rest@;
            let open_len = d@.open.len();
            let ip = spec_lex_group(
                language.atoms@,
                language.delimiters@,
                language.variable_rules.spec_keywords(),
                skip_chars(text, open_len),
                (cursor.offset + open_len) as nat,
                Some(d),
                None,
                None,
            );
            let closed = spec_starts_with(skip_chars(text, (open_len + ip.1) as nat), d@.close);
            let node_len: nat = if closed {
                (open_len + ip.1 + d@.close.len()) as nat
            } else {
                (open_len + ip.1) as nat
            };
            let (node, out) = r;
            &&& tree_view(node) == SpecTree::Delimited(
                d@,
                ip.0,
                SourceLocation { offset: cursor.offset, len: node_len as usize },
                closed,
            )
            &&& 1 <= node_len <= text.len()
            &&& out.offset == cursor.offset + node_len
            &&& out.rest@ == skip_chars(text, node_len)
            &&& tree_text(tree_view(node)) == text.subrange(0, node_len as int)
            &&& tree_wf(tree_view(node), cursor.offset as nat)
            &&& crate::token::tree_lexed(tree_view(node))
        }),
    decreases cursor.rest@.len(), 0int,
{
    let ghost text = cursor.rest@;
    let delim = language.delimiters[di];
    let open_len = delim.open.unicode_len();
    let close_len = delim.close.unicode_len();
    let start_offset = cursor.offset;
    let inner_cursor = cursor.advance(open_len);
    let (inner_trees, next_cursor) = lex_group(inner_cursor, language, Some(&delim));
    let ghost inner_tv = trees_view(inner_trees@);

    let closed = str_starts_with(next_cursor.rest, delim.close);
    let end_cursor = if closed {
        next_cursor.advance(close_len)
    } else {
        next_cursor
    };
    let loc = SourceLocation { offset: start_offset, len: end_cursor.offset - start_offset };
    let node = TokenTree::Delimited(delim, inner_trees, loc, closed);
    proof {
        // Align the interior with the mirror's recursive call.
        assert(inner_cursor.rest@ =~= skip_chars(text, delim@.open.len()));
        let ip = spec_lex_group(
            language.atoms@,
            language.delimiters@,
            language.variable_rules.spec_keywords(),
            skip_chars(text, delim@.open.len()),
            (cursor.offset + delim@.open.len()) as nat,
            Some(delim),
            None,
            None,
        );
        assert(term_view(Some(&delim)) == Some(delim));
        assert(trees_view(inner_trees@) == ip.0);
        assert(next_cursor.offset - inner_cursor.offset == ip.1);
        lemma_skip_chars_compose(text, delim@.open.len(), ip.1);
        assert(next_cursor.rest@ =~= skip_chars(text, (delim@.open.len() + ip.1) as nat));
        let node_len: nat = if closed {
            (delim@.open.len() + ip.1 + delim@.close.len()) as nat
        } else {
            (delim@.open.len() + ip.1) as nat
        };
        if closed {
            lemma_skip_chars_compose(
                text,
                (delim@.open.len() + ip.1) as nat,
                delim@.close.len(),
            );
        }
        assert(end_cursor.rest@ =~= skip_chars(text, node_len));
        assert(end_cursor.offset - cursor.offset == node_len);
        // The node's text is exactly its slice of the text, and its span
        // sits over it.
        let nv = tree_view(node);
        assert(delim@.open =~= text.subrange(0, delim@.open.len() as int));
        assert(forest_text(inner_tv) =~= text.subrange(
            delim@.open.len() as int,
            (delim@.open.len() + ip.1) as int,
        ));
        if closed {
            assert(delim@.close =~= text.subrange(
                (delim@.open.len() + ip.1) as int,
                node_len as int,
            ));
        }
        assert(tree_text(nv) =~= text.subrange(0, node_len as int));
        assert(tree_wf(nv, cursor.offset as nat));
    }
    (node, end_cursor)
}

/// Recursively lexes a group of tokens until the input is exhausted or the

/// close marker of `terminator` is found. Returns the forest and the cursor
/// where lexing stopped: at the end of the input, or right at the
/// terminator's close marker (which stays unconsumed).
#[verifier::rlimit(100)]
#[verifier::spinoff_prover]
fn lex_group<'a>(
    start: Cursor<'a>,
    language: &Language,
    terminator: Option<&Delimiter>,
) -> (r: (Vec<TokenTree>, Cursor<'a>))
    requires
        start.offset + start.rest@.len() <= usize::MAX,
    ensures
        ({
            let (trees, out) = r;
            let consumed = out.offset - start.offset;
            &&& start.offset <= out.offset <= start.offset + start.rest@.len()
            &&& out.rest@ == start.rest@.subrange(consumed as int, start.rest@.len() as int)
            &&& forest_text(trees_view(trees@)) == start.rest@.subrange(0, consumed as int)
            &&& forest_wf(trees_view(trees@), start.offset as nat)
            &&& forest_lexed(trees_view(trees@))
            &&& (out.rest@.len() == 0 || (terminator is Some && spec_starts_with(
                out.rest@,
                terminator->0@.close,
            )))
            &&& ({
                let m = spec_lex_group(
                    language.atoms@,
                    language.delimiters@,
                    language.variable_rules.spec_keywords(),
                    start.rest@,
                    start.offset as nat,
                    term_view(terminator),
                    None,
                    None,
                );
                trees_view(trees@) == m.0 && out.offset - start.offset == m.1
            })
        }),
    decreases start.rest@.len(), 1int,
{
    let mut cursor = start;
    let mut trees: Vec<TokenTree> = Vec::new();
    let mut previous: Option<Token> = None;
    let mut pending: Option<(usize, String)> = None;
    proof {
        // At the start, nothing is emitted yet and the mirror of the whole
        // group is the mirror of the remaining text.
        assert(trees_view(trees@) =~= Seq::<SpecTree>::empty());
        let m = spec_lex_group(
            language.atoms@,
            language.delimiters@,
            language.variable_rules.spec_keywords(),
            start.rest@,
            start.offset as nat,
            term_view(terminator),
            None,
            None,
        );
        assert(Seq::<SpecTree>::empty() + m.0 =~= m.0);
    }

    while !cursor.rest.is_empty()
        invariant
            start.offset + start.rest@.len() <= usize::MAX,
            start.offset <= cursor.offset <= start.offset + start.rest@.len(),
            cursor.rest@ == start.rest@.subrange(
                cursor.offset - start.offset,
                start.rest@.len() as int,
            ),
            forest_text(trees_view(trees@)) + pending_text(pending) == start.rest@.subrange(
                0,
                cursor.offset - start.offset,
            ),
            match pending {
                Some(q) => {
                    &&& q.0 == start.offset + forest_text(trees_view(trees@)).len()
                    &&& q.0 + q.1@.len() == cursor.offset
                },
                None => cursor.offset == start.offset + forest_text(trees_view(trees@)).len(),
            },
            forest_wf(trees_view(trees@), start.offset as nat),
            forest_lexed(trees_view(trees@)),
            ({
                let full = spec_lex_group(
                    language.atoms@,
                    language.delimiters@,
                    language.variable_rules.spec_keywords(),
                    start.rest@,
                    start.offset as nat,
                    term_view(terminator),
                    None,
                    None,
                );
                let rest = spec_lex_group(
                    language.atoms@,
                    language.delimiters@,
                    language.variable_rules.spec_keywords(),
                    cursor.rest@,
                    cursor.offset as nat,
                    term_view(terminator),
                    prev_view(previous),
                    pending_view(pending),
                );
                full.0 == trees_view(trees@) + rest.0 && full.1 == (cursor.offset - start.offset)
                    + rest.1
            }),
        decreases cursor.rest@.len(),
    {
        let ghost consumed0 = cursor.offset - start.offset;
        let ghost pend0 = pending;
        let ghost prev0 = previous;
        let ghost tv0 = trees_view(trees@);
        let ghost lga = language.atoms@;
        let ghost lgd = language.delimiters@;
        let ghost lgk = language.variable_rules.spec_keywords();
        let ghost tview = term_view(terminator);
        let ghost full = spec_lex_group(
            lga,
            lgd,
            lgk,
            start.rest@,
            start.offset as nat,
            tview,
            None,
            None,
        );
        let ghost rest0 = spec_lex_group(
            lga,
            lgd,
            lgk,
            cursor.rest@,
            cursor.offset as nat,
            tview,
            prev_view(previous),
            pending_view(pending),
        );

        // 1. Check for the terminator (the enclosing close delimiter).
        match terminator {
            Some(term) => {
                if str_starts_with(cursor.rest, term.close) {
                    flush_unknown(&mut trees, &mut pending);
                    proof {
                        lemma_flush(
                            tv0,
                            trees_view(trees@),
                            pend0,
                            start.offset as nat,
                            cursor.offset as nat,
                        );
                        // The mirror stops here too and flushes the same run.
                        lemma_spec_lex_stop(
                            lga,
                            lgd,
                            lgk,
                            cursor.rest@,
                            cursor.offset as nat,
                            tview,
                            prev_view(prev0),
                            pending_view(pend0),
                        );
                        assert(trees_view(trees@) =~= tv0 + spec_flush(pending_view(pend0)));
                        assert(full.0 == trees_view(trees@));
                    }
                    return (trees, cursor);
                }
            },
            None => {},
        }

        // 2. Check for delimiter openers.
        match find_open_delimiter(cursor.rest, &language.delimiters) {
            Some(di) => {
                flush_unknown(&mut trees, &mut pending);
                proof {
                    lemma_flush(
                        tv0,
                        trees_view(trees@),
                        pend0,
                        start.offset as nat,
                        cursor.offset as nat,
                    );
                }
                let ghost tv1 = trees_view(trees@);
                let (node, end_cursor) = lex_delimited(cursor, language, di);
                let ghost before = trees@;
                proof {
                    let text = cursor.rest@;
                    let s = start.rest@;
                    let c0 = consumed0 as int;
                    let nv = tree_view(node);
                    let node_len: nat = (end_cursor.offset - cursor.offset) as nat;
                    // Rebase the node's slice from the cursor's suffix to
                    // the whole input.
                    assert(text =~= s.subrange(c0, s.len() as int));
                    assert(tree_text(nv) =~= s.subrange(c0, c0 + node_len));
                    assert(tree_wf(nv, (start.offset + forest_text(tv1).len()) as nat));
                    lemma_trees_view_push(before, node);
                    lemma_push_step(tv1, nv, s, start.offset as nat, c0, c0 + node_len);
                    assert(end_cursor.rest@ =~= s.subrange(c0 + node_len, s.len() as int));
                    // The mirror takes the same step.
                    lemma_spec_lex_delim(
                        lga,
                        lgd,
                        lgk,
                        text,
                        cursor.offset as nat,
                        tview,
                        prev_view(prev0),
                        pending_view(pend0),
                        language.delimiters@[di as int],
                    );
                    let cont = spec_lex_group(
                        lga,
                        lgd,
                        lgk,
                        skip_chars(text, node_len),
                        (cursor.offset + node_len) as nat,
                        tview,
                        None,
                        None,
                    );
                    assert(rest0.0 =~= spec_flush(pending_view(pend0)) + seq![nv] + cont.0);
                    assert(rest0.1 == node_len + cont.1);
                    assert(trees_view(trees@.push(node)) =~= (tv0 + spec_flush(
                        pending_view(pend0),
                    )).push(nv));
                    assert(full.0 =~= trees_view(trees@.push(node)) + cont.0);
                }
                trees.push(node);
                cursor = end_cursor;
                previous = None;
            },
            None => {
                // 3. Check for atoms, in declaration order.
                match try_atoms(cursor, language) {
                    Some((mut token, next_cursor, atom_index)) => {
                        flush_unknown(&mut trees, &mut pending);
                        proof {
                            lemma_flush(
                                tv0,
                                trees_view(trees@),
                                pend0,
                                start.offset as nat,
                                cursor.offset as nat,
                            );
                        }
                        let ghost tv1 = trees_view(trees@);
                        token.atom_index = Some(atom_index);
                        let ghost tok_mid = token@;
                        // Lexer-time classification of identifiers, for
                        // highlighting.
                        if token.kind.is_identifier() {
                            let role = language.variable_rules.classify(
                                previous.as_ref(),
                                &token,
                            );
                            token.kind = role;
                        }
                        let is_ws = token.kind.is_whitespace();
                        let node = TokenTree::Token(token.duplicate());
                        let ghost before = trees@;
                        proof {
                            let s = start.rest@;
                            let c0 = consumed0 as int;
                            let tlen = token@.text.len() as int;
                            let nv = tree_view(node);
                            assert(tree_text(nv) =~= s.subrange(c0, c0 + tlen));
                            assert(tree_wf(nv, (start.offset + forest_text(tv1).len()) as nat));
                            lemma_trees_view_push(before, node);
                            lemma_push_step(tv1, nv, s, start.offset as nat, c0, c0 + tlen);
                            assert(next_cursor.rest@ =~= s.subrange(c0 + tlen, s.len() as int));
                        }
                        proof {
                            // The mirror picks the same first atom, builds
                            // the same token (same text, span, index and
                            // classified kind), and carries the same
                            // previous-token state forward.
                            let text = cursor.rest@;
                            let ai = spec_first_atom(lga, text)->0;
                            lemma_spec_lex_atom(
                                lga,
                                lgd,
                                lgk,
                                text,
                                cursor.offset as nat,
                                tview,
                                prev_view(prev0),
                                pending_view(pend0),
                                ai,
                            );
                            lemma_spec_first_atom_props(lga, text);
                            lemma_atom_parse_bounds(lga[ai]@, text);
                            let parsed = atom_spec_parse(lga[ai]@, text)->0;
                            let raw = SpecToken {
                                kind: parsed.0,
                                text: text.subrange(0, parsed.1 as int),
                                location: SourceLocation {
                                    offset: cursor.offset,
                                    len: parsed.1 as usize,
                                },
                                atom_index: Some(ai as usize),
                                binding: None,
                            };
                            assert(ai == atom_index as int);
                            assert(raw == tok_mid);
                            assert(token@.kind == spec_classify(lgk, prev_view(prev0), raw));
                            assert(token@ == SpecToken {
                                kind: spec_classify(lgk, prev_view(prev0), raw),
                                text: raw.text,
                                location: raw.location,
                                atom_index: raw.atom_index,
                                binding: None,
                            });
                            let nv = tree_view(node);
                            assert(nv == SpecTree::Token(token@));
                            assert(next_cursor.rest@ =~= skip_chars(text, parsed.1));
                            let cont = spec_lex_group(
                                lga,
                                lgd,
                                lgk,
                                skip_chars(text, parsed.1),
                                (cursor.offset + parsed.1) as nat,
                                tview,
                                if token@.kind is Whitespace {
                                    prev_view(prev0)
                                } else {
                                    Some(token@)
                                },
                                None,
                            );
                            assert(rest0.0 =~= spec_flush(pending_view(pend0)) + seq![nv]
                                + cont.0);
                            assert(rest0.1 == parsed.1 + cont.1);
                            assert(trees_view(trees@.push(node)) =~= (tv0 + spec_flush(
                                pending_view(pend0),
                            )).push(nv));
                            assert(full.0 =~= trees_view(trees@.push(node)) + cont.0);
                        }
                        trees.push(node);
                        if !is_ws {
                            previous = Some(token);
                        }
                        cursor = next_cursor;
                    },
                    None => {
                        // 4. No match: accumulate one unknown character;
                        // adjacent unknown characters coalesce into a
                        // single token.
                        let ch = cursor.rest.substring_char(0, 1);
                        let next_cursor = cursor.advance(1);
                        proof {
                            let s = start.rest@;
                            let c0 = consumed0 as int;
                            assert(ch@ =~= s.subrange(c0, c0 + 1));
                            assert(next_cursor.rest@ =~= s.subrange(c0 + 1, s.len() as int));
                        }
                        proof {
                            // The mirror adds the same character to the
                            // same pending run.
                            let text = cursor.rest@;
                            assert(ch@ =~= seq![text[0]]);
                            assert(next_cursor.rest@ =~= text.drop_first());
                        }
                        match pending.take() {
                            Some(q) => {
                                let (st, mut text) = q;
                                let ghost old_run = text@;
                                text.append(ch);
                                proof {
                                    assert(forest_text(trees_view(trees@)) + text@
                                        =~= start.rest@.subrange(0, consumed0 + 1));
                                    assert(text@ =~= old_run.push(cursor.rest@[0]));
                                }
                                pending = Some((st, text));
                            },
                            None => {
                                proof {
                                    assert(forest_text(trees_view(trees@)) + ch@
                                        =~= start.rest@.subrange(0, consumed0 + 1));
                                }
                                pending = Some((cursor.offset, ch.to_owned()));
                            },
                        }
                        proof {
                            lemma_spec_lex_unknown(
                                lga,
                                lgd,
                                lgk,
                                cursor.rest@,
                                cursor.offset as nat,
                                tview,
                                prev_view(prev0),
                                pending_view(pend0),
                            );
                            let text = cursor.rest@;
                            let cont = spec_lex_group(
                                lga,
                                lgd,
                                lgk,
                                text.drop_first(),
                                (cursor.offset + 1) as nat,
                                tview,
                                prev_view(prev0),
                                pending_view(pending),
                            );
                            assert(rest0.0 == cont.0);
                            assert(rest0.1 == 1 + cont.1);
                        }
                        cursor = next_cursor;
                    },
                }
            },
        }
    }

    // End of input: flush any remaining unknown text.
    let ghost pend0 = pending;
    let ghost tv0 = trees_view(trees@);
    flush_unknown(&mut trees, &mut pending);
    proof {
        lemma_flush(tv0, trees_view(trees@), pend0, start.offset as nat, cursor.offset as nat);
        // The mirror flushes the same run at the end of the input.
        lemma_spec_lex_stop(
            language.atoms@,
            language.delimiters@,
            language.variable_rules.spec_keywords(),
            cursor.rest@,
            cursor.offset as nat,
            term_view(terminator),
            prev_view(previous),
            pending_view(pend0),
        );
        let rest = spec_lex_group(
            language.atoms@,
            language.delimiters@,
            language.variable_rules.spec_keywords(),
            cursor.rest@,
            cursor.offset as nat,
            term_view(terminator),
            prev_view(previous),
            pending_view(pend0),
        );
        assert(rest == (spec_flush(pending_view(pend0)), 0nat));
        assert(trees_view(trees@) =~= tv0 + spec_flush(pending_view(pend0)));
    }
    (trees, cursor)
}

} // verus!
