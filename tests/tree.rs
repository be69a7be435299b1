use ast_grep_core::meta_var::{same_text, MetaVarEnv};
use ast_grep_core::tree::Root;

#[test]
fn statements_and_tokens() {
    let tree = Root::new("a b; c");
    let root = tree.root();
    let kids = root.children();
    assert_eq!(kids.len(), 2);
    assert_eq!(kids[0].children().len(), 2);
    assert_eq!(*kids[0].children()[1].text(), vec!['b']);
    assert_eq!(*kids[1].text(), vec!['c']);
    assert_eq!(kids[1].parent().unwrap().index(), 0);
    assert!(root.parent().is_none());
}

#[test]
fn blocks_nest() {
    let tree = Root::new("f() { x y }");
    let stmt = tree.root().children()[0];
    let items = stmt.children();
    assert_eq!(items.len(), 4);
    assert_eq!(*items[3].text(), vec!['{', '}']);
    assert_eq!(items[3].children().len(), 1);
    assert_eq!(items[3].children()[0].children().len(), 2);
}

#[test]
fn empty_source_is_a_bare_root() {
    let tree = Root::new("");
    assert_eq!(tree.len(), 1);
    assert!(tree.root().children().is_empty());
}

#[test]
fn env_keeps_latest_binding() {
    let mut env = MetaVarEnv::new();
    env.insert(vec!['$', 'A'], 3);
    env.insert(vec!['$', 'B'], 4);
    env.insert(vec!['$', 'A'], 5);
    assert_eq!(env.get(&vec!['$', 'A']), Some(5));
    assert_eq!(env.get(&vec!['$', 'B']), Some(4));
    assert_eq!(env.get(&vec!['$', 'C']), None);
    env.truncate(2);
    assert_eq!(env.get(&vec!['$', 'A']), Some(3));
    assert!(same_text(&vec!['a'], &vec!['a']));
    assert!(!same_text(&vec!['a'], &vec!['a', 'b']));
}
