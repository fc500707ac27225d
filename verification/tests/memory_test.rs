use idc_runtime::memory::{MemoryStore, StrMap};

#[test]
fn test_global_scope_get_and_set() {
    let mut mem = MemoryStore::new();
    mem.set("k", "v");
    assert_eq!(mem.get("k"), Some("v".to_string()));
    assert_eq!(mem.get("absent"), None);
}

#[test]
fn test_inner_scope_shadows_outer() {
    let mut mem = MemoryStore::new();
    mem.set("k", "outer");
    mem.enter_scope("inner");
    mem.set("k", "inner");
    assert_eq!(mem.get("k"), Some("inner".to_string()));
    mem.exit_scope();
    assert_eq!(mem.get("k"), Some("outer".to_string()));
}

#[test]
fn test_exit_scope_promotes_under_flag() {
    let mut mem = MemoryStore::new();
    mem.set_promote_on_tick(true);
    mem.enter_scope("a");
    mem.set("k", "1");
    mem.exit_scope();
    assert_eq!(mem.get("k"), Some("1".to_string()));
}

#[test]
fn test_exit_scope_discards_without_flag() {
    let mut mem = MemoryStore::new();
    mem.set_promote_on_tick(false);
    mem.enter_scope("a");
    mem.set("k", "1");
    mem.exit_scope();
    assert_eq!(mem.get("k"), None);
}

#[test]
fn test_global_scope_is_never_popped() {
    let mut mem = MemoryStore::new();
    mem.set("k", "v");
    mem.exit_scope();
    mem.exit_scope();
    assert_eq!(mem.get("k"), Some("v".to_string()));
}

#[test]
fn test_promote_all_copies_top_into_global() {
    let mut mem = MemoryStore::new();
    mem.enter_scope("work");
    mem.set("a", "1");
    mem.set("b", "2");
    mem.promote_all();
    mem.set_promote_on_tick(false);
    mem.exit_scope();
    assert_eq!(mem.get("a"), Some("1".to_string()));
    assert_eq!(mem.get("b"), Some("2".to_string()));
}

#[test]
fn test_promote_scope_by_name_first_match() {
    let mut mem = MemoryStore::new();
    mem.enter_scope("src");
    mem.set("k", "v");
    let ok = mem.promote_scope("src", "global");
    assert!(ok);
    mem.set_promote_on_tick(false);
    mem.exit_scope();
    assert_eq!(mem.get("k"), Some("v".to_string()));
}

#[test]
fn test_promote_scope_missing_name_is_a_no_op() {
    let mut mem = MemoryStore::new();
    let ok = mem.promote_scope("nowhere", "global");
    assert!(!ok);
}

#[test]
fn test_set_target_global_bypasses_scoping() {
    let mut mem = MemoryStore::new();
    mem.enter_scope("local_scope");
    mem.set_target("k", "v", Some("global"));
    mem.set_promote_on_tick(false);
    mem.exit_scope();
    assert_eq!(mem.get("k"), Some("v".to_string()));
}

#[test]
fn test_set_target_unknown_scope_is_a_no_op() {
    let mut mem = MemoryStore::new();
    mem.set_target("k", "v", Some("elsewhere"));
    assert_eq!(mem.get("k"), None);
}

#[test]
fn test_scope_contains_checks_top_only() {
    let mut mem = MemoryStore::new();
    mem.set("k", "v");
    mem.enter_scope("inner");
    assert!(!mem.scope_contains("k"));
    mem.set("k", "w");
    assert!(mem.scope_contains("k"));
}

#[test]
fn test_scope_chain_and_local_map() {
    let mut mem = MemoryStore::new();
    mem.enter_scope("a");
    mem.enter_scope("b");
    let chain = mem.current_scope_chain();
    assert_eq!(chain.len(), 3);
    assert_eq!(chain[0].as_str(), "global");
    assert_eq!(chain[1].as_str(), "a");
    assert_eq!(chain[2].as_str(), "b");
    assert_eq!(mem.format_scope_chain().as_str(), "global > a > b");
    mem.set("only_here", "1");
    let local = mem.get_local_map();
    assert_eq!(local.get("only_here").map(|s| s.clone()), Some("1".to_string()));
}

#[test]
fn test_flatten_resolves_innermost() {
    let mut mem = MemoryStore::new();
    mem.set("k", "outer");
    mem.set("g", "global_only");
    mem.enter_scope("inner");
    mem.set("k", "inner");
    let flat = mem.flatten_map();
    assert_eq!(flat.get("k").map(|s| s.clone()), Some("inner".to_string()));
    assert_eq!(flat.get("g").map(|s| s.clone()), Some("global_only".to_string()));
}

#[test]
fn test_strmap_insert_overwrites() {
    let mut m = StrMap::new();
    m.insert("k".to_string(), "1".to_string());
    m.insert("k".to_string(), "2".to_string());
    assert_eq!(m.get("k").map(|s| s.clone()), Some("2".to_string()));
    assert_eq!(m.len(), 1);
}

#[test]
fn test_promote_if_follows_the_condition() {
    let mut mem = MemoryStore::new();
    mem.enter_scope("work");
    mem.set("flagged", "1");
    mem.promote_if(|data: &StrMap| data.get("absent").is_some());
    mem.promote_if(|data: &StrMap| data.get("flagged").is_some());
    mem.set_promote_on_tick(false);
    mem.exit_scope();
    // only the second condition held, and it promoted the whole top scope
    assert_eq!(mem.get("flagged"), Some("1".to_string()));
}

#[test]
fn test_resolve_placeholders_through_store() {
    let mut mem = MemoryStore::new();
    mem.set("x", "7");
    let out = mem.resolve_placeholders("x is {{{{x}}}}");
    // lazy brace matching: the first `}}` closes the placeholder, whose
    // content `{{x` still resolves the unclosed inner key
    assert_eq!(out.as_str(), "x is 7}}");
}
