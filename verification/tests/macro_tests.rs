use mcparse::atom::{Atom, AtomKind, VariableRole};
use mcparse::atoms::{KeywordAtom, LiteralAtom, RegexAtom};
use mcparse::language::{Delimiter, Language};

#[test]
fn test_macro_expansion() {
    let lang = Language::new()
        .with_atom(Atom::Regex(
            RegexAtom::new(AtomKind::Identifier(VariableRole::Plain), r"[a-zA-Z_]\w*").unwrap(),
        ))
        .with_atom(Atom::Regex(RegexAtom::new(AtomKind::Number, r"\d+").unwrap()))
        .with_atom(Atom::Literal(LiteralAtom::new(AtomKind::Operator, "+")))
        .with_atom(Atom::Keyword(KeywordAtom::new(&["if"])))
        .with_atom(Atom::Keyword(KeywordAtom::new(&["else", "while"])))
        .with_delimiter(Delimiter {
            kind: "paren",
            open: "(",
            close: ")",
        });
    let atoms = lang.atoms();

    assert_eq!(atoms.len(), 5);

    // Check kinds.
    assert!(matches!(atoms[0].kind(), AtomKind::Identifier(_)));
    assert!(matches!(atoms[1].kind(), AtomKind::Number));
    assert!(matches!(atoms[2].kind(), AtomKind::Operator));
    assert!(matches!(atoms[3].kind(), AtomKind::Identifier(_)));
    assert!(matches!(atoms[4].kind(), AtomKind::Identifier(_)));

    let delimiters = lang.delimiters();
    assert_eq!(delimiters.len(), 1);
    assert_eq!(delimiters[0].kind, "paren");
    assert_eq!(delimiters[0].open, "(");
    assert_eq!(delimiters[0].close, ")");
}
