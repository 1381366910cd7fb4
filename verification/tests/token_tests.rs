use mcparse::atom::{AtomKind, VariableRole};
use mcparse::language::Delimiter;
use mcparse::token::{SourceLocation, Token, TokenTree};

fn mock_token(text: &str) -> TokenTree {
    TokenTree::Token(Token {
        kind: AtomKind::Identifier(VariableRole::Plain),
        text: text.to_string(),
        location: SourceLocation { offset: 0, len: 0 },
        atom_index: None,
        binding: None,
    })
}

#[test]
fn test_sexp_token() {
    let t = mock_token("hello");
    assert_eq!(t.to_sexp(), "\"hello\"");
}

#[test]
fn test_sexp_group() {
    let t1 = mock_token("a");
    let t2 = mock_token("b");
    let group = TokenTree::Group(vec![t1, t2]);
    assert_eq!(group.to_sexp(), "(group \"a\" \"b\")");
}

#[test]
fn test_sexp_delimited() {
    let t1 = mock_token("key");
    let d = Delimiter {
        kind: "brace",
        open: "{",
        close: "}",
    };
    let tree = TokenTree::Delimited(
        d,
        vec![t1],
        SourceLocation { offset: 0, len: 0 },
        true,
    );
    assert_eq!(tree.to_sexp(), "(brace \"key\")");
}

#[test]
fn test_location_contains_trailing_edge() {
    // Completion needs spans to include their trailing edge.
    let loc = SourceLocation { offset: 3, len: 2 };
    assert!(!loc.contains(2));
    assert!(loc.contains(3));
    assert!(loc.contains(5));
    assert!(!loc.contains(6));
}

#[test]
fn test_sexp_error_and_empty() {
    assert_eq!(TokenTree::Error("oops".to_string()).to_sexp(), "(error \"oops\")");
    assert_eq!(TokenTree::Empty.to_sexp(), "(empty)");
}
