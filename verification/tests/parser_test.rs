use idc_runtime::tokenizer::tokenize_lines;
use idc_runtime::ast::build_ast;
use idc_runtime::semantic::{analyze_semantics, SemanticWarning};

fn lines(src: &[&str]) -> Vec<String> {
    src.iter().map(|s| s.to_string()).collect()
}

fn walk(nodes: &[idc_runtime::ast::AstNode], seen: &mut Vec<String>) {
    for n in nodes {
        seen.push(n.value.clone());
        walk(&n.children, seen);
    }
}

#[test]
fn test_tokenize_keyword_value_and_modifiers() {
    let tokens = tokenize_lines(&lines(&["on \"start\"", "    respond done complete"]));
    assert_eq!(tokens.len(), 2);
    assert_eq!(tokens[0].token_type.as_str(), "on");
    assert_eq!(tokens[0].value.as_str(), "\"start\"");
    assert_eq!(tokens[0].indentation, 0);
    assert_eq!(tokens[1].token_type.as_str(), "respond");
    assert_eq!(tokens[1].value.as_str(), "done");
    assert_eq!(tokens[1].modifiers, vec!["complete".to_string()]);
    assert_eq!(tokens[1].indentation, 4);
}

#[test]
fn test_tokenize_skips_blank_and_comment_lines() {
    let tokens = tokenize_lines(&lines(&["", "   ", "// a comment", "  // also", "set k v"]));
    assert_eq!(tokens.len(), 1);
    assert_eq!(tokens[0].token_type.as_str(), "set");
}

#[test]
fn test_tokenize_unknown_first_word() {
    let tokens = tokenize_lines(&lines(&["frobnicate target"]));
    assert_eq!(tokens.len(), 1);
    assert_eq!(tokens[0].token_type.as_str(), "unknown");
    assert_eq!(tokens[0].value.as_str(), "target");
}

#[test]
fn test_tokenize_quotes_keep_spaces_together() {
    let tokens = tokenize_lines(&lines(&["respond \"hello there\" extra"]));
    assert_eq!(tokens[0].value.as_str(), "\"hello there\"");
    assert_eq!(tokens[0].modifiers, vec!["extra".to_string()]);
}

#[test]
fn test_tokenize_parens_keep_spaces_together() {
    let tokens = tokenize_lines(&lines(&["if (1 + 2) then"]));
    assert_eq!(tokens[0].token_type.as_str(), "if");
    assert_eq!(tokens[0].value.as_str(), "(1 + 2)");
    assert_eq!(tokens[0].modifiers, vec!["then".to_string()]);
}

#[test]
fn test_tokenize_true_false_and_else() {
    let tokens = tokenize_lines(&lines(&["true x", "false y", "if c", "else d"]));
    assert_eq!(tokens[0].token_type.as_str(), "true");
    assert_eq!(tokens[1].token_type.as_str(), "false");
    assert_eq!(tokens[2].token_type.as_str(), "if");
    assert_eq!(tokens[3].token_type.as_str(), "else");
}

#[test]
fn test_build_ast_empty_tokens_is_an_error() {
    let tokens = tokenize_lines(&lines(&["// nothing here"]));
    assert!(build_ast(&tokens).is_err());
}

#[test]
fn test_build_ast_nesting_follows_indentation() {
    let tokens = tokenize_lines(&lines(&[
        "on start",
        "  respond one",
        "  if cond",
        "    respond two",
        "set k v",
    ]));
    let ast = build_ast(&tokens).unwrap();
    assert_eq!(ast.len(), 2);
    assert_eq!(ast[0].node_type.as_str(), "on");
    assert_eq!(ast[0].children.len(), 2);
    assert_eq!(ast[0].children[0].node_type.as_str(), "respond");
    assert_eq!(ast[0].children[1].node_type.as_str(), "if");
    assert_eq!(ast[0].children[1].children.len(), 1);
    assert_eq!(ast[0].children[1].children[0].value.as_str(), "two");
    assert_eq!(ast[1].node_type.as_str(), "set");
    assert_eq!(ast[1].children.len(), 0);
}

#[test]
fn test_build_ast_preorder_matches_token_order() {
    let tokens = tokenize_lines(&lines(&[
        "on start",
        "    respond a",
        "  respond b",
        "check c",
    ]));
    let ast = build_ast(&tokens).unwrap();
    // walk the forest depth-first and compare against the token order
    let mut seen: Vec<String> = Vec::new();
    walk(&ast, &mut seen);
    let expected: Vec<String> =
        tokens.iter().map(|t| t.value.clone()).collect();
    assert_eq!(seen, expected);
}

#[test]
fn test_semantics_empty_get_and_remember_and_respond() {
    let tokens = tokenize_lines(&lines(&["get", "remember", "respond"]));
    let ast = build_ast(&tokens).unwrap();
    let warnings = analyze_semantics(&ast);
    assert_eq!(warnings.len(), 3);
    assert!(matches!(warnings[0], SemanticWarning::UnresolvedReference(_)));
    assert!(matches!(warnings[1], SemanticWarning::UnresolvedReference(_)));
    assert!(matches!(warnings[2], SemanticWarning::MissingRespond));
}

#[test]
fn test_semantics_empty_flow_blocks() {
    let tokens = tokenize_lines(&lines(&["if cond", "while cond", "if c2", "  respond ok"]));
    let ast = build_ast(&tokens).unwrap();
    let warnings = analyze_semantics(&ast);
    let flow: Vec<_> = warnings
        .iter()
        .filter(|w| matches!(w, SemanticWarning::InvalidFlow(_)))
        .collect();
    assert_eq!(flow.len(), 2);
}

#[test]
fn test_semantics_set_promote_always() {
    let tokens = tokenize_lines(&lines(&[
        "set promote_always maybe",
        "set promote_always",
        "set promote_always true",
        "set",
    ]));
    let ast = build_ast(&tokens).unwrap();
    let warnings = analyze_semantics(&ast);
    let cfg: Vec<_> = warnings
        .iter()
        .filter(|w| matches!(w, SemanticWarning::InvalidConfiguration(_)))
        .collect();
    assert_eq!(cfg.len(), 3);
}

#[test]
fn test_semantics_unknown_node_type() {
    let tokens = tokenize_lines(&lines(&["frobnicate widget"]));
    let ast = build_ast(&tokens).unwrap();
    let warnings = analyze_semantics(&ast);
    assert_eq!(warnings.len(), 1);
    match &warnings[0] {
        SemanticWarning::UnknownNodeType(v) => assert_eq!(v.as_str(), "widget"),
        _ => panic!("expected an unknown-node warning"),
    }
}

#[test]
fn test_semantics_visits_children_of_flagged_nodes() {
    let tokens = tokenize_lines(&lines(&["frobnicate x", "  get", "  respond ok"]));
    let ast = build_ast(&tokens).unwrap();
    let warnings = analyze_semantics(&ast);
    // the unknown parent is flagged, and its children are still visited
    assert_eq!(warnings.len(), 2);
}
