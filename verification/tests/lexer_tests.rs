use mcparse::atom::{Atom, AtomKind, VariableRole};
use mcparse::atoms::LiteralAtom;
use mcparse::incremental::GreenTree;
use mcparse::language::Language;
use mcparse::lexer::lex;
use mcparse::mock::MockLanguage;
use mcparse::token::TokenTree;

#[test]
fn test_lex_simple() {
    let lang = MockLanguage::new();
    let input = "foo bar";
    let trees = lex(input, &lang);

    assert_eq!(trees.len(), 3); // foo, space, bar

    if let TokenTree::Token(t) = &trees[0] {
        assert_eq!(t.text, "foo");
        assert!(matches!(
            t.kind,
            AtomKind::Identifier(VariableRole::Reference)
        ));
    } else {
        panic!("Expected token");
    }
}

#[test]
fn test_lex_binding() {
    let lang = MockLanguage::new().with_keyword_binding("let");
    let input = "let x";
    let trees = lex(input, &lang);

    // let, space, x
    assert_eq!(trees.len(), 3);

    if let TokenTree::Token(t) = &trees[0] {
        assert_eq!(t.text, "let");
        assert!(matches!(t.kind, AtomKind::Keyword(_)));
    }

    if let TokenTree::Token(t) = &trees[2] {
        assert_eq!(t.text, "x");
        assert!(matches!(
            t.kind,
            AtomKind::Identifier(VariableRole::Binding)
        ));
    } else {
        panic!("Expected token x");
    }
}

#[test]
fn test_lex_group() {
    let lang = MockLanguage::new();
    let input = "(foo)";
    let trees = lex(input, &lang);

    assert_eq!(trees.len(), 1);

    if let TokenTree::Delimited(delim, inner, _, _) = &trees[0] {
        assert_eq!(delim.kind, "paren");
        assert_eq!(inner.len(), 1); // foo
        if let TokenTree::Token(t) = &inner[0] {
            assert_eq!(t.text, "foo");
        }
    } else {
        panic!("Expected delimited");
    }
}

#[test]
fn test_lex_unknown() {
    let lang = MockLanguage::new();
    let input = "123";
    let trees = lex(input, &lang);

    assert_eq!(trees.len(), 1);
    if let TokenTree::Token(t) = &trees[0] {
        assert_eq!(t.text, "123");
        assert!(matches!(t.kind, AtomKind::Other(ref s) if s == "Unknown"));
    } else {
        panic!("Expected token");
    }
}

#[test]
fn test_lex_reconstructs_input_exactly() {
    // The concatenation of all produced tokens' text plus delimiter markers
    // is the original string, whatever the input holds.
    let lang = MockLanguage::new().with_keyword_binding("let");
    for input in [
        "",
        "let x = 1; ( let y = 2; ) @#%",
        "(((",
        ")))",
        "a(b(c)d)e",
        "  \t\n mixed 123 &&& (unclosed",
    ] {
        let trees = lex(input, &lang);
        assert_eq!(GreenTree::from_forest(&trees).text(), input);
    }
}

#[test]
fn test_lex_closure_flag() {
    // A delimited node is closed exactly when its close marker is present,
    // and an unclosed node's span stays within the input.
    let lang = MockLanguage::new();

    let trees = lex("(foo)", &lang);
    if let TokenTree::Delimited(_, _, loc, closed) = &trees[0] {
        assert!(*closed);
        assert_eq!(loc.offset, 0);
        assert_eq!(loc.len, 5);
    } else {
        panic!("Expected delimited");
    }

    let trees = lex("(foo", &lang);
    if let TokenTree::Delimited(_, _, loc, closed) = &trees[0] {
        assert!(!*closed);
        assert_eq!(loc.offset, 0);
        assert_eq!(loc.len, 4); // never extends past the input's end
    } else {
        panic!("Expected delimited");
    }
}

#[test]
fn test_lex_coalesces_unknown_runs() {
    // Adjacent unrecognised characters become one token, not one each.
    let lang = MockLanguage::new();
    let trees = lex("@#% foo", &lang);
    assert_eq!(trees.len(), 3);
    if let TokenTree::Token(t) = &trees[0] {
        assert_eq!(t.text, "@#%");
        assert!(matches!(t.kind, AtomKind::Other(ref s) if s == "Unknown"));
    } else {
        panic!("Expected token");
    }
}

#[test]
fn test_lex_records_atom_index() {
    let lang = MockLanguage::new();
    let trees = lex("foo", &lang);
    if let TokenTree::Token(t) = &trees[0] {
        // The identifier atom is the third in the mock language.
        assert_eq!(t.atom_index, Some(2));
    } else {
        panic!("Expected token");
    }
}

#[test]
fn test_lex_first_atom_wins() {
    // Atoms are tried in declaration order: the first match wins even when
    // a later atom would consume more.
    let lang = Language::new()
        .with_atom(Atom::Literal(LiteralAtom::new(AtomKind::Operator, "a")))
        .with_atom(Atom::Literal(LiteralAtom::new(AtomKind::Number, "ab")));
    let trees = lex("ab", &lang);
    assert_eq!(trees.len(), 2);
    if let TokenTree::Token(t) = &trees[0] {
        assert_eq!(t.text, "a");
        assert_eq!(t.kind, AtomKind::Operator);
        assert_eq!(t.atom_index, Some(0));
    } else {
        panic!("Expected token");
    }
}
