use ast_grep_core::meta_var::MetaVarEnv;
use ast_grep_core::pattern::Pattern;
use ast_grep_core::rule::{And, Inside, Matcher, Not, NotInside, Or, Rule, Search};
use ast_grep_core::tree::Root;

fn test_find(rule: &impl Matcher, code: &str) {
    let mut env = MetaVarEnv::new();
    let node = Root::new(code);
    assert!(rule.find_node(node.root(), &mut env).is_some());
}

fn test_not_find(rule: &impl Matcher, code: &str) {
    let mut env = MetaVarEnv::new();
    let node = Root::new(code);
    assert!(rule.find_node(node.root(), &mut env).is_none());
}

#[test]
fn test_or() {
    let rule = Or::new(Pattern::new("let a = 1"), Pattern::new("const b = 2"));
    test_find(&rule, "let a = 1");
    test_find(&rule, "const b = 2");
    test_not_find(&rule, "let a = 2");
    test_not_find(&rule, "const a = 1");
    test_not_find(&rule, "let b = 2");
    test_not_find(&rule, "const b = 1");
}

#[test]
fn test_not() {
    let rule = Not::new(Pattern::new("let a = 1"));
    test_find(&rule, "const b = 2");
}

#[test]
fn test_and() {
    let rule = And::new(Pattern::new("let a = $_"), Not::new(Pattern::new("let a = 123")));
    test_find(&rule, "let a = 233");
    test_find(&rule, "let a = 456");
    test_not_find(&rule, "let a = 123");
}

#[test]
fn test_api_and() {
    let rule = Rule::all("let a = $_")
        .and(Rule::not("let a = 123"))
        .build();
    test_find(&rule, "let a = 233");
    test_find(&rule, "let a = 456");
    test_not_find(&rule, "let a = 123");
}

#[test]
fn test_api_or() {
    let rule = Rule::either("let a = 1").or("const b = 2").build();
    test_find(&rule, "let a = 1");
    test_find(&rule, "const b = 2");
    test_not_find(&rule, "let a = 2");
    test_not_find(&rule, "const a = 1");
    test_not_find(&rule, "let b = 2");
    test_not_find(&rule, "const b = 1");
}

#[test]
fn not_fails_where_inner_matches() {
    let rule = Not::new(Pattern::new("let a = 1"));
    let tree = Root::new("let a = 1");
    let stmt = tree.root().children()[0];
    let mut env = MetaVarEnv::new();
    assert!(rule.match_node(stmt, &mut env).is_none());
    // No descent: the statement's own tokens are not tried.
    let mut env = MetaVarEnv::new();
    assert!(rule.match_node(tree.root(), &mut env).is_some());
}

#[test]
fn or_tries_each_alternative_at_the_same_node() {
    let rule = Rule::either("let a = 1").or("const b = 2").or("var c = 3").build();
    let tree = Root::new("var c = 3");
    let stmt = tree.root().children()[0];
    let mut env = MetaVarEnv::new();
    let found = rule.match_node(stmt, &mut env).unwrap();
    assert_eq!(found.index(), stmt.index());
}

#[test]
fn and_chain_of_three() {
    let rule = Rule::all("let $A = $_")
        .and(Rule::not("let a = 1"))
        .and(Rule::not("let b = 2"))
        .build();
    test_find(&rule, "let c = 3");
    test_not_find(&rule, "let a = 1");
    test_not_find(&rule, "let b = 2");
}

#[test]
fn inside_a_function_body() {
    let rule = Rule::all("let a = $_")
        .and(Inside::new(Pattern::new("function $_() { $$$ }")))
        .build();
    test_find(&rule, "function foo() { let a = 1 }");
    test_find(&rule, "function foo() { x; let a = 1; y }");
    test_not_find(&rule, "let a = 1");
}

#[test]
fn not_inside_is_the_complement() {
    let rule = Rule::all("let a = $_")
        .and(NotInside::new(Pattern::new("function $_() { $$$ }")))
        .build();
    test_not_find(&rule, "function foo() { let a = 1 }");
    test_find(&rule, "let a = 1");
}

#[test]
fn inside_fails_at_the_root() {
    let rule = Inside::new(Pattern::new("$_"));
    let tree = Root::new("x y");
    let mut env = MetaVarEnv::new();
    assert!(rule.match_node(tree.root(), &mut env).is_none());
    let rule = NotInside::new(Pattern::new("$_"));
    let mut env = MetaVarEnv::new();
    assert!(rule.match_node(tree.root(), &mut env).is_some());
}

#[test]
fn find_node_vec_in_level_order() {
    let tree = Root::new("function f() { let a = 2 }\nlet a = 1");
    let found = Pattern::new("let a = $_").find_node_vec(tree.root());
    assert_eq!(found.len(), 2);
    // The top-level statement is shallower, so it comes first.
    let top = tree.root().children()[1];
    assert_eq!(found[0].index(), top.index());
    assert!(found[1].index() > found[0].index() || found[1].index() != top.index());
    let inner = found[1].parent().unwrap().parent().unwrap();
    assert_eq!(inner.index(), tree.root().children()[0].index());
}

#[test]
fn find_node_vec_is_repeatable() {
    let tree = Root::new("let a = 1; let b = 2\nfunction f() { let c = 3 }");
    let rule = Rule::all("let $X = $_").and(Rule::not("let b = 2")).build();
    let first: Vec<usize> = rule.find_node_vec(tree.root()).iter().map(|n| n.index()).collect();
    let second: Vec<usize> = rule.find_node_vec(tree.root()).iter().map(|n| n.index()).collect();
    assert_eq!(first.len(), 2);
    assert_eq!(first, second);
}

#[test]
fn find_node_vec_empty_when_nothing_matches() {
    let tree = Root::new("const b = 2");
    assert!(Pattern::new("let a = 1").find_node_vec(tree.root()).is_empty());
}

#[test]
fn named_placeholder_binds_and_compares() {
    let rule = Pattern::new("$A + $A");
    test_find(&rule, "x + x");
    test_not_find(&rule, "x + y");
    let tree = Root::new("x + x");
    let mut env = MetaVarEnv::new();
    let found = rule.find_node(tree.root(), &mut env).unwrap();
    let bound = env.get(&vec!['$', 'A']).unwrap();
    assert_eq!(found.index(), tree.root().children()[0].index());
    assert_eq!(*found.children()[0].text(), vec!['x']);
    assert_eq!(bound, found.children()[0].index());
}

#[test]
fn multi_placeholder_takes_any_run() {
    let rule = Pattern::new("f($$$)");
    test_find(&rule, "f()");
    test_find(&rule, "f(a, b, c)");
    test_not_find(&rule, "g(a)");
}

#[test]
fn template_failure_keeps_bindings() {
    let tree = Root::new("let a = 1");
    let stmt = tree.root().children()[0];
    let mut env = MetaVarEnv::new();
    assert!(Pattern::new("let $N = 1").match_node(stmt, &mut env).is_some());
    assert_eq!(env.len(), 1);
    assert!(Pattern::new("let $M = 2").match_node(stmt, &mut env).is_none());
    assert_eq!(env.len(), 1);
}

#[test]
fn owned_text_is_a_matcher() {
    let rule = Rule::either(String::from("let a = 1")).or("const b = 2").build();
    test_find(&rule, "const b = 2");
    test_not_find(&rule, "const b = 1");
}

#[test]
fn multi_placeholder_matches_an_empty_body() {
    let rule = Pattern::new("function $_() { $$$ }");
    test_find(&rule, "function g() { }");
    test_find(&rule, "function g() { a; b; c }");
    test_not_find(&rule, "function g(x) { }");
}
