//! Building the scope tree and registering identifiers.

use scoped_names::scope::{RootCounter, RootScope};

#[test]
fn create_root() {
    let mut counter = RootCounter::new();
    let (mut arena, root) = RootScope::new_root(&mut counter);
    let child1 = root.add_child(&mut arena);
    let child2 = root.add_child(&mut arena);
    let child2a = child2.add_child(&mut arena);
    let child2b = child2.add_child(&mut arena);
    let _ = (child1, child2a, child2b);
}

#[test]
fn add_named_unique() {
    let mut counter = RootCounter::new();
    let (mut arena, root) = RootScope::new_root(&mut counter);
    let name1 = root.add_named(&mut arena, "hello").unwrap();
    let name2 = root.add_named(&mut arena, "bye").unwrap();
    let child1 = root.add_child(&mut arena);
    let name3 = child1.add_named(&mut arena, "nihao").unwrap();
    let _ = (name1, name2, name3);
}

#[test]
fn add_named_duplicate() {
    let mut counter = RootCounter::new();
    let (mut arena, root) = RootScope::new_root(&mut counter);
    let name1 = root.add_named(&mut arena, "hello").unwrap();
    let child1 = root.add_child(&mut arena);
    // This is shadowing (in different scope) and is allowed:
    let name2 = child1.add_named(&mut arena, "hello").unwrap();
    // This is a duplicate (in the same scope) and should fail:
    let failure = child1.add_named(&mut arena, "hello").unwrap_err();
    let _ = (name1, name2, failure);
}
