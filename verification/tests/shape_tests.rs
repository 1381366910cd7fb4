use mcparse::atom::{AtomKind, VariableRole};
use mcparse::language::Delimiter;
use mcparse::shape::{term, MatchContext, Matcher};
use mcparse::token::{SourceLocation, Token, TokenStream, TokenTree};

fn mock_token(text: &str, offset: usize) -> TokenTree {
    TokenTree::Token(Token {
        kind: AtomKind::Identifier(VariableRole::Plain),
        text: text.to_string(),
        location: SourceLocation { offset, len: text.len() },
        atom_index: None,
        binding: None,
    })
}

#[test]
fn test_term_completion() {
    let t = mock_token("fun", 0);
    let trees = vec![t];
    let stream = TokenStream::new(&trees);
    let shape = term(Matcher::text("function"));

    let items = shape.complete(stream, MatchContext::NoOp, 1); // cursor at 'u'
    assert_eq!(items.len(), 1);
    assert_eq!(items[0].label, "function");
}

#[test]
fn test_seq_completion_first() {
    let t = mock_token("fun", 0);
    let trees = vec![t];
    let stream = TokenStream::new(&trees);
    let shape = mcparse::shape::seq(term(Matcher::text("function")), term(Matcher::text("name")));

    let items = shape.complete(stream, MatchContext::NoOp, 1);
    assert_eq!(items.len(), 1);
    assert_eq!(items[0].label, "function");
}

#[test]
fn test_seq_completion_second() {
    let t1 = mock_token("function", 0);
    let t2 = mock_token("na", 9); // "function " is 9 characters
    let trees = vec![t1, t2];
    let stream = TokenStream::new(&trees);
    let shape = mcparse::shape::seq(term(Matcher::text("function")), term(Matcher::text("name")));

    let items = shape.complete(stream, MatchContext::NoOp, 10); // cursor at 'a'
    assert_eq!(items.len(), 1);
    assert_eq!(items[0].label, "name");
}

#[test]
fn test_choice_completion() {
    let t = mock_token("le", 0);
    let trees = vec![t];
    let stream = TokenStream::new(&trees);
    let shape = mcparse::shape::choice(term(Matcher::text("let")), term(Matcher::text("left")));

    let items = shape.complete(stream, MatchContext::NoOp, 1);
    assert_eq!(items.len(), 2);
    // Order may vary; both must be offered.
    let labels: Vec<String> = items.iter().map(|i| i.label.clone()).collect();
    assert!(labels.contains(&"let".to_string()));
    assert!(labels.contains(&"left".to_string()));
}

#[test]
fn test_completion_prefix_rule() {
    // The typed prefix "le" with the cursor right after it: both choices
    // are offered, each erasing the two typed characters.
    let t = mock_token("le", 0);
    let trees = vec![t];
    let stream = TokenStream::new(&trees);
    let shape = mcparse::shape::choice(term(Matcher::text("let")), term(Matcher::text("left")));

    let items = shape.complete(stream, MatchContext::NoOp, 2);
    assert_eq!(items.len(), 2);
    let labels: Vec<String> = items.iter().map(|i| i.label.clone()).collect();
    assert!(labels.contains(&"let".to_string()));
    assert!(labels.contains(&"left".to_string()));
    assert!(items.iter().all(|i| i.delete_backwards == 2));
}

#[test]
fn test_term_mismatch_message() {
    let trees = vec![mock_token("foo", 0)];
    let stream = TokenStream::new(&trees);
    let shape = term(Matcher::text("bar"));
    let failure = shape.match_shape(stream, MatchContext::NoOp).unwrap_err();
    assert_eq!(failure.error.message, "Expected 'bar', found identifier");
    assert_eq!(failure.error.span, SourceLocation { offset: 0, len: 3 });
}

#[test]
fn test_term_eof_message() {
    let trees: Vec<TokenTree> = Vec::new();
    let stream = TokenStream::new(&trees);
    let shape = term(Matcher::text("bar"));
    let failure = shape.match_shape(stream, MatchContext::NoOp).unwrap_err();
    assert_eq!(failure.error.message, "Expected 'bar', found EOF");
}

#[test]
fn test_recovery_boundedness() {
    // recover(seq(term("foo"), term("bar")), term(";")) over "foo baz ;"
    // succeeds with an error node reporting exactly one skipped token, and
    // the ";" stays unconsumed in the returned stream.
    let trees = vec![
        mock_token("foo", 0),
        mock_token("baz", 4),
        mock_token(";", 8),
    ];
    let stream = TokenStream::new(&trees);
    let shape = mcparse::shape::recover(
        mcparse::shape::seq(term(Matcher::text("foo")), term(Matcher::text("bar"))),
        Matcher::text(";"),
    );
    let (result, rest) = shape.match_shape(stream, MatchContext::NoOp).unwrap();
    if let TokenTree::Error(msg) = result {
        assert_eq!(msg, "Parse error, skipped 1 tokens");
    } else {
        panic!("Expected an error node");
    }
    assert_eq!(rest.trees.len(), 1);
    if let TokenTree::Token(t) = &rest.trees[0] {
        assert_eq!(t.text, ";");
    } else {
        panic!("Expected the terminator to remain");
    }
}

#[test]
fn test_end_and_empty() {
    let trees = vec![mock_token("x", 0)];
    let stream = TokenStream::new(&trees);
    let failure = mcparse::shape::end()
        .match_shape(stream, MatchContext::NoOp)
        .unwrap_err();
    assert_eq!(failure.error.message, "Expected end of input");

    let (tree, rest) = mcparse::shape::empty()
        .match_shape(stream, MatchContext::NoOp)
        .unwrap();
    assert!(matches!(tree, TokenTree::Empty));
    assert_eq!(rest.trees.len(), 1);
}

#[test]
fn test_adjacent_rejects_whitespace() {
    let ws = TokenTree::Token(Token {
        kind: AtomKind::Whitespace,
        text: " ".to_string(),
        location: SourceLocation { offset: 1, len: 1 },
        atom_index: None,
        binding: None,
    });
    let trees = vec![mock_token("a", 0), ws, mock_token("b", 2)];
    let stream = TokenStream::new(&trees);
    let shape = mcparse::shape::adjacent(
        term(Matcher::text("a")),
        term(Matcher::text("b")),
    );
    let failure = shape.match_shape(stream, MatchContext::NoOp).unwrap_err();
    assert_eq!(failure.error.message, "Unexpected whitespace");
}

#[test]
fn test_decimal_rendering() {
    assert_eq!(mcparse::shape::usize_to_string(0), "0");
    assert_eq!(mcparse::shape::usize_to_string(7), "7");
    assert_eq!(mcparse::shape::usize_to_string(42), "42");
    assert_eq!(mcparse::shape::usize_to_string(1234), "1234");
}

#[test]
fn test_matcher_by_kind_and_delimiter() {
    let paren = Delimiter {
        kind: "paren",
        open: "(",
        close: ")",
    };
    let trees = vec![
        TokenTree::Delimited(
            paren,
            vec![mock_token("x", 1)],
            SourceLocation { offset: 0, len: 3 },
            true,
        ),
        mock_token("foo", 3),
    ];
    let stream = TokenStream::new(&trees);

    // A delimiter matcher takes the delimited group.
    let shape = term(Matcher::delimiter(paren));
    let (tree, rest) = shape.match_shape(stream, MatchContext::NoOp).unwrap();
    assert!(matches!(tree, TokenTree::Delimited(..)));

    // A kind matcher takes the identifier that follows.
    let shape = term(Matcher::kind(AtomKind::Identifier(VariableRole::Plain)));
    let (tree, _) = shape.match_shape(rest, MatchContext::NoOp).unwrap();
    if let TokenTree::Token(t) = tree {
        assert_eq!(t.text, "foo");
    } else {
        panic!("Expected the identifier");
    }
}

#[test]
fn test_derived_shapes() {
    // separated: item (sep item)*, grouping as the primitives dictate.
    let trees = vec![
        mock_token("x", 0),
        mock_token(",", 1),
        mock_token("y", 2),
        mock_token(",", 3),
        mock_token("z", 4),
    ];
    let stream = TokenStream::new(&trees);
    let item = || term(Matcher::kind(AtomKind::Identifier(VariableRole::Plain)));
    let shape = mcparse::shape::separated(item(), term(Matcher::text(",")), item());
    let (result, rest) = shape.match_shape(stream, MatchContext::NoOp).unwrap();
    assert_eq!(
        result.to_sexp(),
        "(group \"x\" (group (group \",\" \"y\") (group \",\" \"z\")))"
    );
    assert!(rest.trees.is_empty());

    // opt: succeeds consuming nothing when its shape does not match.
    let shape = mcparse::shape::opt(term(Matcher::text("missing")));
    let (result, rest) = shape
        .match_shape(TokenStream::new(&trees), MatchContext::NoOp)
        .unwrap();
    assert!(matches!(result, TokenTree::Empty));
    assert_eq!(rest.trees.len(), 5);
}
