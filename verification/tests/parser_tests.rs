use mcparse::lexer::lex;
use mcparse::macros::{Macro, MacroExpansion};
use mcparse::mock::MockLanguage;
use mcparse::parser::Parser;
use mcparse::shape::{expr, term, Associativity, Matcher, Precedence};
use mcparse::token::{TokenStream, TokenTree};

fn plus_macro() -> Macro {
    Macro::infix(
        "+",
        expr(Precedence(10)),
        MacroExpansion::PairWithLeft,
        Precedence(10),
        Associativity::Left,
    )
}

#[test]
fn test_parse_simple_infix() {
    let lang = MockLanguage::new().with_symbol("+").with_macro(plus_macro());

    let input = "a + b";
    let trees = lex(input, &lang);
    let stream = TokenStream::new(&trees);
    let mut parser = Parser::new(stream, &lang);

    let result = parser.parse().unwrap();

    // Expected: Group(a, b)
    if let TokenTree::Group(items) = result {
        assert_eq!(items.len(), 2);
        if let TokenTree::Token(t) = &items[0] {
            assert_eq!(t.text, "a");
        } else {
            panic!("Expected token a");
        }
        if let TokenTree::Token(t) = &items[1] {
            assert_eq!(t.text, "b");
        } else {
            panic!("Expected token b");
        }
    } else {
        panic!("Expected Group, got {:?}", result);
    }
}

#[test]
fn test_parse_precedence() {
    // a + b + c -> (a + b) + c: left associative by default.
    let lang = MockLanguage::new().with_symbol("+").with_macro(plus_macro());

    let input = "a + b + c";
    let trees = lex(input, &lang);
    let stream = TokenStream::new(&trees);
    let mut parser = Parser::new(stream, &lang);

    let result = parser.parse().unwrap();

    // Expected: Group(Group(a, b), c)
    if let TokenTree::Group(items) = result {
        assert_eq!(items.len(), 2);
        if let TokenTree::Group(inner) = &items[0] {
            assert_eq!(inner.len(), 2);
            if let TokenTree::Token(t) = &inner[0] {
                assert_eq!(t.text, "a");
            }
            if let TokenTree::Token(t) = &inner[1] {
                assert_eq!(t.text, "b");
            }
        } else {
            panic!("Expected inner group");
        }

        if let TokenTree::Token(t) = &items[1] {
            assert_eq!(t.text, "c");
        } else {
            panic!("Expected token c");
        }
    } else {
        panic!("Expected Group, got {:?}", result);
    }
}

#[test]
fn test_recover() {
    // A macro that expects "foo" then "bar" and recovers until ";".
    let recover_macro = Macro::prefix(
        "stmt",
        mcparse::shape::recover(
            mcparse::shape::seq(term(Matcher::text("foo")), term(Matcher::text("bar"))),
            Matcher::text(";"),
        ),
        MacroExpansion::ArgsOnly,
    );

    let lang = MockLanguage::new()
        .with_symbol(";")
        .with_macro(recover_macro);

    // "foo" matches, "bar" fails at "baz": recovery skips "baz" and stops
    // at ";", yielding an error node.
    let input = "stmt foo baz ;";
    let trees = lex(input, &lang);
    let stream = TokenStream::new(&trees);
    let mut parser = Parser::new(stream, &lang);

    let result = parser.parse().unwrap();

    if let TokenTree::Error(msg) = result {
        assert!(msg.contains("skipped"));
    } else {
        panic!("Expected Error, got {:?}", result);
    }
}

#[test]
fn test_operator_without_left_hand_side_fails() {
    // A pairing operator applied as a prefix has no left-hand side: the
    // expansion refuses and the whole parse fails.
    let bad = Macro::prefix("+", expr(Precedence(10)), MacroExpansion::PairWithLeft);
    let lang = MockLanguage::new().with_symbol("+").with_macro(bad);

    let trees = lex("+ a", &lang);
    let stream = TokenStream::new(&trees);
    let mut parser = Parser::new(stream, &lang);
    assert_eq!(parser.parse().unwrap_err(), "Parse failed");
}

#[test]
fn test_parse_bare_term() {
    let lang = MockLanguage::new();
    let trees = lex("lonely", &lang);
    let stream = TokenStream::new(&trees);
    let mut parser = Parser::new(stream, &lang);
    if let TokenTree::Token(t) = parser.parse().unwrap() {
        assert_eq!(t.text, "lonely");
    } else {
        panic!("Expected the bare token");
    }
}

#[test]
fn test_parse_empty_input_fails() {
    let lang = MockLanguage::new();
    let trees = lex("", &lang);
    let stream = TokenStream::new(&trees);
    let mut parser = Parser::new(stream, &lang);
    assert_eq!(parser.parse().unwrap_err(), "Parse failed");
}
