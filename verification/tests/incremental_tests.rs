use mcparse::incremental::{incremental_relex, GreenTree, RedNode, RelexResult, TextEdit};
use mcparse::lexer::lex;
use mcparse::mock::MockLanguage;

#[test]
fn test_edit_apply() {
    let edit = TextEdit {
        start: 4,
        end: 7,
        new_text: "world".to_string(),
    };
    assert_eq!(edit.apply("say xyz now"), "say world now");

    let insertion = TextEdit {
        start: 3,
        end: 3,
        new_text: "!".to_string(),
    };
    assert_eq!(insertion.apply("abcdef"), "abc!def");
}

#[test]
fn test_edit_round_trip() {
    // GreenTree::text() after from_forest(lex(edit.apply(text))) is exactly
    // edit.apply(text).
    let lang = MockLanguage::new().with_keyword_binding("let");
    let text = "let x = 1; ( let y = 2; )";
    let edit = TextEdit {
        start: 15,
        end: 18,
        new_text: "first".to_string(),
    };
    let edited = edit.apply(text);
    let green = GreenTree::from_forest(&lex(&edited, &lang));
    assert_eq!(green.text(), edited);
}

#[test]
fn test_green_width_matches_text() {
    let lang = MockLanguage::new();
    let green = GreenTree::from_forest(&lex("foo ( bar ) baz", &lang));
    assert_eq!(green.width(), green.text().len());
    assert_eq!(green.width(), 15);
}

#[test]
fn test_incremental_matches_full_relex() {
    // When the incremental path succeeds, its text equals a full re-lex of
    // the edited document.
    let lang = MockLanguage::new();
    let text = "aa ( bb cc ) dd";
    let green = GreenTree::from_forest(&lex(text, &lang));
    let edit = TextEdit {
        start: 5,
        end: 7,
        new_text: "changed".to_string(),
    };
    let edited = edit.apply(text);
    match incremental_relex(&green, &edit, &lang) {
        RelexResult::Success(new_tree) => {
            let full = GreenTree::from_forest(&lex(&edited, &lang));
            assert_eq!(new_tree.text(), full.text());
            assert_eq!(new_tree.text(), edited);
        }
        RelexResult::Failed => panic!("Expected the delimiter to absorb the edit"),
    }
}

#[test]
fn test_edit_outside_any_delimiter_fails() {
    // An edit at the top level has no enclosing delimiter to absorb it: the
    // caller must fall back to a full re-lex.
    let lang = MockLanguage::new();
    let green = GreenTree::from_forest(&lex("aa bb", &lang));
    let edit = TextEdit {
        start: 0,
        end: 2,
        new_text: "xx".to_string(),
    };
    assert!(matches!(
        incremental_relex(&green, &edit, &lang),
        RelexResult::Failed
    ));
}

#[test]
fn test_bubble_up_containment() {
    // Deleting the inner close marker in a doubly nested block is absorbed
    // by the outer block's content re-lex: siblings outside it, like the
    // leading statement, keep their trees untouched.
    let lang = MockLanguage::new().with_keyword_binding("let");
    let text = "let x = 1; ( ( let y = 2; ) )";
    let trees = lex(text, &lang);
    let green = GreenTree::from_forest(&trees);

    // The first ')' sits at offset 26.
    assert_eq!(&text[26..27], ")");
    let edit = TextEdit {
        start: 26,
        end: 27,
        new_text: String::new(),
    };
    let edited = edit.apply(text);

    match incremental_relex(&green, &edit, &lang) {
        RelexResult::Success(new_tree) => {
            assert_eq!(new_tree.text(), edited);
            // Everything before the outer block is lexically identical:
            // those subtrees were not rebuilt differently.
            let old_children = match &green {
                GreenTree::Group(children) => children,
                _ => panic!("Expected a group root"),
            };
            let new_children = match &new_tree {
                GreenTree::Group(children) => children,
                _ => panic!("Expected a group root"),
            };
            assert_eq!(old_children.len(), new_children.len());
            // All siblings before the outer delimited block are unchanged.
            for i in 0..old_children.len() - 1 {
                assert_eq!(old_children[i], new_children[i]);
            }
            // The outer block itself absorbed the edit.
            assert_ne!(
                old_children[old_children.len() - 1],
                new_children[new_children.len() - 1]
            );
        }
        RelexResult::Failed => panic!("Expected the outer block to absorb the edit"),
    }
}

#[test]
fn test_red_node_find_at_offset() {
    let lang = MockLanguage::new();
    let text = "foo ( bar )";
    let green = GreenTree::from_forest(&lex(text, &lang));
    let root = RedNode::new(&green, 0);

    let found = root.find_at_offset(6).expect("Offset is inside the tree");
    match found.green {
        GreenTree::Token(t) => assert_eq!(t.text, "bar"),
        other => panic!("Expected the bar token, got {:?}", other),
    }
    assert_eq!(found.offset, 6);

    assert!(root.find_at_offset(11).is_none()); // past the end

    let children = root.children();
    assert_eq!(children.len(), 3); // foo, space, the parenthesised group
    assert_eq!(children[2].offset, 4);
}

#[test]
fn test_relex_success_is_owed_inside_content() {
    // An edit strictly inside a delimited node's content must be absorbed,
    // even when it unbalances the interior: the node simply re-lexes its
    // own content.
    let lang = MockLanguage::new();
    let text = "aa ( bb ) cc";
    let green = GreenTree::from_forest(&lex(text, &lang));
    // Insert an opener inside the parentheses.
    let edit = TextEdit {
        start: 6,
        end: 6,
        new_text: "(".to_string(),
    };
    match incremental_relex(&green, &edit, &lang) {
        RelexResult::Success(new_tree) => {
            assert_eq!(new_tree.text(), edit.apply(text));
        }
        RelexResult::Failed => panic!("An edit inside delimited content must succeed"),
    }
}
