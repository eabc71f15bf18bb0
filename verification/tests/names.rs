//! Equality behavior of registered names.

use std::collections::HashSet;

use scoped_names::scope::{RootCounter, RootScope};

#[test]
fn different_variant() {
    let mut counter = RootCounter::new();
    let (mut arena, scope) = RootScope::new_root(&mut counter);
    let name1 = scope.add_prefixed(&mut arena, "hello");
    let name2 = scope.add_named(&mut arena, "hello").unwrap();
    assert_ne!(name1, name1);
    assert_eq!(name2, name2.clone());
    assert_ne!(name1, name2);
}

#[test]
fn prefixed_ne() {
    let mut counter = RootCounter::new();
    let (mut arena, scope) = RootScope::new_root(&mut counter);
    let name1 = scope.add_prefixed(&mut arena, "hello");
    let name2 = scope.add_prefixed(&mut arena, "hello");
    assert_ne!(name1, name1);
    assert_ne!(name2, name2.clone());
    assert_ne!(name1, name2);
}

#[test]
fn anonymous_ne() {
    let mut counter = RootCounter::new();
    let (mut arena, scope) = RootScope::new_root(&mut counter);
    let name1 = scope.add_anonymous(&mut arena);
    let name2 = scope.add_anonymous(&mut arena);
    assert_ne!(name1, name1);
    assert_ne!(name2, name2.clone());
    assert_ne!(name1, name2);
}

#[test]
fn different_text_ne() {
    let mut counter = RootCounter::new();
    let (mut arena, scope) = RootScope::new_root(&mut counter);
    let name1 = scope.add_named(&mut arena, "hello").unwrap();
    let name2 = scope.add_named(&mut arena, "world").unwrap();
    assert_eq!(name1, name1);
    assert_eq!(name2, name2.clone());
    assert_ne!(name1, name2);
}

#[test]
fn different_text_hash() {
    let mut counter = RootCounter::new();
    let (mut arena, scope) = RootScope::new_root(&mut counter);
    let name1 = scope.add_named(&mut arena, "hello").unwrap().unwrap_given();
    let name2 = scope.add_named(&mut arena, "world").unwrap().unwrap_given();
    let mut set = HashSet::new();
    assert!(set.insert(name1.clone()));
    assert!(set.insert(name2));
    assert!(!set.insert(name1));
}

#[test]
fn different_scope_ne() {
    let mut counter = RootCounter::new();
    let (mut arena, scope) = RootScope::new_root(&mut counter);
    let child1 = scope.add_child(&mut arena);
    let name1 = child1.add_named(&mut arena, "hello").unwrap();
    let child2 = scope.add_child(&mut arena);
    let name2 = child2.add_named(&mut arena, "hello").unwrap();
    assert_eq!(name1, name1);
    assert_eq!(name2, name2.clone());
    assert_ne!(name1, name2);
}

#[test]
fn different_root_ne() {
    let mut counter = RootCounter::new();
    let (mut arena1, scope1) = RootScope::new_root(&mut counter);
    let (mut arena2, scope2) = RootScope::new_root(&mut counter);
    let name1 = scope1.add_named(&mut arena1, "hello").unwrap();
    let name2 = scope2.add_named(&mut arena2, "hello").unwrap();
    assert_eq!(name1, name1);
    assert_eq!(name2, name2.clone());
    assert_ne!(name1, name2);
}
