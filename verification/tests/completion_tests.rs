use mcparse::completion::find_completions;
use mcparse::lexer::lex;
use mcparse::mock::MockLanguage;
use mcparse::scoping::ScopeStack;

#[test]
fn test_completion_simple() {
    let lang = MockLanguage::new().with_keyword_binding("let");
    let input = "let x = 1; ";
    // Cursor at the end.
    let offset = input.len();

    let tokens = lex(input, &lang);
    let completions = find_completions(&tokens, &lang, offset);

    assert!(completions.iter().any(|c| c.label == "x"));
}

#[test]
fn test_completion_inside_block() {
    let lang = MockLanguage::new().with_keyword_binding("let");
    let input = "let x = 1; ( let y = 2; ";
    // Cursor at the end, inside the unclosed parenthesis.
    let offset = input.len();

    let tokens = lex(input, &lang);
    let completions = find_completions(&tokens, &lang, offset);

    assert!(completions.iter().any(|c| c.label == "x"));
    assert!(completions.iter().any(|c| c.label == "y"));
}

#[test]
fn test_completion_shadowing() {
    let lang = MockLanguage::new().with_keyword_binding("let");
    let input = "let x = 1; ( let x = 2; ";
    let offset = input.len();

    let tokens = lex(input, &lang);
    let completions = find_completions(&tokens, &lang, offset);

    let x_count = completions.iter().filter(|c| c.label == "x").count();
    assert!(x_count >= 1);
}

#[test]
fn test_language_complete_entry_point() {
    let lang = MockLanguage::new().with_keyword_binding("let");
    let completions = lang.complete("let total = 1; tot", 18);
    assert!(completions.iter().any(|c| c.label == "total"));
    // "tot" is already typed and must be erased before inserting.
    assert!(completions.iter().all(|c| c.delete_backwards == 3));
}

#[test]
fn test_scope_stack_resolution() {
    let mut scope = ScopeStack::new();
    let outer = scope.define("x".to_string());
    scope.push();
    let inner = scope.define("x".to_string());
    assert_ne!(outer, inner);
    assert_eq!(scope.resolve("x"), Some(inner));
    scope.pop();
    assert_eq!(scope.resolve("x"), Some(outer));
    assert_eq!(scope.resolve("y"), None);
    assert_eq!(scope.names(), vec!["x".to_string()]);
}

#[test]
fn test_scope_tokens_preserves_text() {
    let lang = MockLanguage::new().with_keyword_binding("let");
    let input = "let x = 1; ( let y = 2; x )";
    let trees = lex(input, &lang);
    let scoped = mcparse::scoping::scope_tokens(&trees, &lang);
    assert_eq!(
        mcparse::incremental::GreenTree::from_forest(&scoped).text(),
        input
    );
}
