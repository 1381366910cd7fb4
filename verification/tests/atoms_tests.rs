use mcparse::atom::{Atom, AtomKind, VariableRole};
use mcparse::atoms::{KeywordAtom, LiteralAtom, RegexAtom};
use mcparse::token::Cursor;

#[test]
fn test_regex_atom_whitespace() {
    let atom = RegexAtom::new(AtomKind::Whitespace, r"\s+").unwrap();
    let input = "   hello";
    let cursor = Cursor::new(input);

    let (token, next) = atom.parse(cursor).expect("Should match whitespace");
    assert_eq!(token.kind, AtomKind::Whitespace);
    assert_eq!(token.text, "   ");
    assert_eq!(token.location.offset, 0);
    assert_eq!(token.location.len, 3);
    assert_eq!(next.offset, 3);
    assert_eq!(next.rest, "hello");
}

#[test]
fn test_regex_atom_identifier() {
    let atom = RegexAtom::new(AtomKind::Identifier(VariableRole::Plain), r"[a-zA-Z_]\w*")
        .unwrap();
    let input = "variable_123 = 5";
    let cursor = Cursor::new(input);

    let (token, next) = atom.parse(cursor).expect("Should match identifier");
    assert!(matches!(token.kind, AtomKind::Identifier(_)));
    assert_eq!(token.text, "variable_123");
    assert_eq!(token.location.len, 12);
    assert_eq!(next.rest, " = 5");
}

#[test]
fn test_regex_atom_no_match() {
    let atom = RegexAtom::new(AtomKind::Number, r"\d+").unwrap();
    let input = "abc";
    let cursor = Cursor::new(input);

    assert!(atom.parse(cursor).is_none());
}

#[test]
fn test_regex_atom_anchoring() {
    // A regex atom anchors its pattern to the start of the text.
    let atom = RegexAtom::new(AtomKind::Number, r"\d+").unwrap();
    let input = "abc 123";
    let cursor = Cursor::new(input);

    // Must not match 123, because it is not at the start.
    assert!(atom.parse(cursor).is_none());
}

#[test]
fn test_regex_atom_empty_match() {
    // A regex that matches the empty string must return no token, to avoid
    // an infinite lexing loop.
    let atom = RegexAtom::new(AtomKind::Other("empty".into()), r"a*").unwrap();
    let input = "bcd"; // 'a*' matches the empty string at the start
    let cursor = Cursor::new(input);

    assert!(atom.parse(cursor).is_none());
}

#[test]
fn test_keyword_atom_basic() {
    let atom = KeywordAtom::new(&["if", "else", "while"]);
    let input = "while condition";
    let cursor = Cursor::new(input);

    let (token, next) = atom.parse(cursor).expect("Should match keyword");
    assert!(matches!(token.kind, AtomKind::Identifier(_)));
    assert_eq!(token.text, "while");
    assert_eq!(next.rest, " condition");
}

#[test]
fn test_keyword_atom_longest_match() {
    // "integer" should match "integer", not "int".
    let atom = KeywordAtom::new(&["int", "integer"]);
    let input = "integer x";
    let cursor = Cursor::new(input);

    let (token, next) = atom.parse(cursor).expect("Should match keyword");
    assert!(matches!(token.kind, AtomKind::Identifier(_)));
    assert_eq!(token.text, "integer");
    assert_eq!(next.rest, " x");
}

#[test]
fn test_keyword_atom_prefix_behavior() {
    // This keyword atom matches prefixes: with "int" declared and "integer"
    // in the input, it matches "int". This is why the order of atoms in a
    // language matters (keywords versus identifiers).
    let atom = KeywordAtom::new(&["int"]);
    let input = "integer";
    let cursor = Cursor::new(input);

    let (token, next) = atom.parse(cursor).expect("Should match prefix");
    assert_eq!(token.text, "int");
    assert_eq!(next.rest, "eger");
}

#[test]
fn test_regex_atom_invalid_pattern() {
    // A pattern the regex engine rejects yields no atom at all.
    assert!(RegexAtom::new(AtomKind::Number, r"(unclosed").is_none());
}

#[test]
fn test_literal_atom_matches_only_its_text() {
    let atom = LiteralAtom::new(AtomKind::Operator, "+");
    let hit = atom.parse(Cursor::new("+1")).expect("Should match literal");
    assert_eq!(hit.0.text, "+");
    assert_eq!(hit.1.rest, "1");
    assert!(atom.parse(Cursor::new("1+")).is_none());
}

#[test]
fn test_atom_enum_dispatch() {
    let atom = Atom::Keyword(KeywordAtom::new(&["let"]));
    assert!(matches!(atom.kind(), AtomKind::Identifier(VariableRole::Plain)));
    let (token, _) = atom.parse(Cursor::new("let x")).expect("Should match");
    assert_eq!(token.text, "let");
    assert_eq!(token.atom_index, None);
}
