//! Concrete scenarios for the registry's guarantees.

use std::collections::HashSet;

use scoped_names::scope::{RootCounter, RootScope};

#[test]
fn duplicate_named_count_rises_once() {
    let mut counter = RootCounter::new();
    let (mut arena, root) = RootScope::new_root(&mut counter);
    assert!(root.add_named(&mut arena, "hello").is_ok());
    assert_eq!(arena.scopes[root.index].given_names.len(), 1);
    assert!(root.add_named(&mut arena, "hello").is_err());
    assert_eq!(arena.scopes[root.index].given_names.len(), 1);
}

#[test]
fn child_scope_scenario() {
    let mut counter = RootCounter::new();
    let (mut arena, root) = RootScope::new_root(&mut counter);
    let child = root.add_child(&mut arena);
    assert!(child.add_named(&mut arena, "hello").is_ok());
    assert!(child.add_named(&mut arena, "hello").is_err());
    assert!(root.add_named(&mut arena, "hello").is_ok());
    let mut it = root.children();
    assert_eq!(it.next(&arena), Some(child));
    assert_eq!(it.next(&arena), None);
}

#[test]
fn children_of_leaf_empty() {
    let mut counter = RootCounter::new();
    let (mut arena, root) = RootScope::new_root(&mut counter);
    let child = root.add_child(&mut arena);
    let mut it = child.children();
    assert!(it.next(&arena).is_none());
    assert!(it.next(&arena).is_none());
}

#[test]
fn children_in_registration_order() {
    let mut counter = RootCounter::new();
    let (mut arena, root) = RootScope::new_root(&mut counter);
    let child1 = root.add_child(&mut arena);
    let child2 = root.add_child(&mut arena);
    let grandchild = child1.add_child(&mut arena);
    let mut it = root.children();
    assert_eq!(it.next(&arena), Some(child1));
    assert_eq!(it.next(&arena), Some(child2));
    assert_eq!(it.next(&arena), None);
    let mut it1 = child1.children();
    assert_eq!(it1.next(&arena), Some(grandchild));
    assert_eq!(it1.next(&arena), None);
}

#[test]
fn prefixed_and_anonymous_pairwise_ne() {
    let mut counter = RootCounter::new();
    let (mut arena, scope) = RootScope::new_root(&mut counter);
    let n1 = scope.add_prefixed(&mut arena, "tmp");
    let n2 = scope.add_anonymous(&mut arena);
    let n3 = scope.add_prefixed(&mut arena, "");
    assert_ne!(n1, n2);
    assert_ne!(n2, n3);
    assert_ne!(n1, n3);
    assert_ne!(n2, n2.clone());
}

#[test]
fn given_clone_equal_and_hashes_once() {
    let mut counter = RootCounter::new();
    let (mut arena, scope) = RootScope::new_root(&mut counter);
    let name = scope.add_named(&mut arena, "hello").unwrap();
    let copy = name.clone();
    assert_eq!(name, copy);
    let g1 = name.unwrap_given();
    let g2 = copy.unwrap_given();
    let mut set = HashSet::new();
    assert!(set.insert(g1));
    assert!(!set.insert(g2));
    assert_eq!(set.len(), 1);
}

#[test]
fn independent_roots_never_equal() {
    let mut counter = RootCounter::new();
    let (mut arena1, root1) = RootScope::new_root(&mut counter);
    let (mut arena2, root2) = RootScope::new_root(&mut counter);
    let child1 = root1.add_child(&mut arena1);
    let child2 = root2.add_child(&mut arena2);
    let n1 = root1.add_named(&mut arena1, "x").unwrap();
    let n2 = root2.add_named(&mut arena2, "x").unwrap();
    assert_ne!(arena1, arena2);
    assert_ne!(root1, root2);
    assert_ne!(child1, child2);
    assert_ne!(n1, n2);
}

#[test]
fn same_text_same_scope_rejected_but_other_text_accepted() {
    let mut counter = RootCounter::new();
    let (mut arena, root) = RootScope::new_root(&mut counter);
    assert!(root.add_named(&mut arena, "alpha").is_ok());
    assert!(root.add_named(&mut arena, "beta").is_ok());
    assert!(root.add_named(&mut arena, "alpha").is_err());
    assert!(root.add_named(&mut arena, "beta").is_err());
    assert_eq!(arena.scopes[root.index].given_names.len(), 2);
}

#[test]
fn children_tolerate_growth_mid_pass() {
    let mut counter = RootCounter::new();
    let (mut arena, root) = RootScope::new_root(&mut counter);
    let child1 = root.add_child(&mut arena);
    let mut it = root.children();
    assert_eq!(it.next(&arena), Some(child1));
    assert_eq!(it.next(&arena), None);
    // The pass reads the child list lazily: a child appended after the end
    // was reached is picked up by the same pass, without error.
    let child2 = root.add_child(&mut arena);
    let grandchild = child1.add_child(&mut arena);
    assert_eq!(it.next(&arena), Some(child2));
    assert_eq!(it.next(&arena), None);
    let _ = grandchild;
}
