use learn_shape::order::str_precedes;
use learn_shape::{JsonTrail, JsonTrailPathComponent};

fn key(trail: &JsonTrail, name: &str) -> JsonTrail {
    trail.with_object_key(String::from(name))
}

#[test]
fn the_root_has_no_steps() {
    let root = JsonTrail::empty();
    assert_eq!(root.len(), 0);
    assert!(root.components().is_empty());
    assert_eq!(root, JsonTrail::empty());
}

#[test]
fn a_step_extends_a_copy_of_the_trail() {
    let root = JsonTrail::empty();
    let a = key(&root, "a");
    let item = a.with_array_item(0);
    assert_eq!(root.len(), 0);
    assert_eq!(a.len(), 1);
    assert_eq!(item.len(), 2);
    match &item.components()[0] {
        JsonTrailPathComponent::JsonObjectKey { key } => assert_eq!(key, "a"),
        other => panic!("unexpected step {:?}", other),
    }
    match &item.components()[1] {
        JsonTrailPathComponent::JsonArrayItem { index } => assert_eq!(*index, 0),
        other => panic!("unexpected step {:?}", other),
    }
    assert_eq!(item.clone(), item);
}

#[test]
fn trails_are_the_same_where_their_steps_are() {
    let root = JsonTrail::empty();
    assert!(key(&root, "a").same_as(&key(&root, "a")));
    assert!(!key(&root, "a").same_as(&key(&root, "b")));
    assert!(!key(&root, "a").same_as(&root));
    assert!(!root.with_array_item(0).same_as(&root.with_array_item(1)));
    assert!(!root.with_array_item(0).same_as(&key(&root, "0")));
    assert_ne!(key(&root, "a"), key(&key(&root, "a"), "a"));
}

#[test]
fn every_trail_precedes_the_trails_below_it() {
    let root = JsonTrail::empty();
    let a = key(&root, "a");
    let below = [a.with_array_item(0), key(&a, "b"), key(&a, ""), key(&key(&a, "z"), "y")];
    for trail in &below {
        assert!(root.precedes(trail));
        assert!(a.precedes(trail));
        assert!(!trail.precedes(&a));
        assert!(!trail.precedes(&root));
    }
    assert!(!root.precedes(&root));
    assert!(!a.precedes(&a));
}

#[test]
fn keys_come_before_items_and_each_in_its_own_order() {
    let root = JsonTrail::empty();
    assert!(key(&root, "z").precedes(&root.with_array_item(0)));
    assert!(!root.with_array_item(0).precedes(&key(&root, "z")));
    assert!(root.with_array_item(0).precedes(&root.with_array_item(1)));
    assert!(!root.with_array_item(2).precedes(&root.with_array_item(1)));
    assert!(key(&root, "a").precedes(&key(&root, "b")));
    assert!(key(&root, "a").precedes(&key(&root, "ab")));
    assert!(!key(&root, "b").precedes(&key(&root, "ab")));
}

#[test]
fn the_first_step_that_differs_decides() {
    let root = JsonTrail::empty();
    let left = key(&key(&root, "a"), "z");
    let right = key(&root, "b");
    assert!(left.precedes(&right));
    assert!(!right.precedes(&left));
    let nested = key(&root, "nested");
    let other = key(&root, "other-field");
    assert!(key(&nested, "nested-object").precedes(&other));
}

#[test]
fn strings_are_ordered_by_their_bytes() {
    assert!(str_precedes("", "a"));
    assert!(!str_precedes("a", ""));
    assert!(!str_precedes("a", "a"));
    assert!(str_precedes("B", "a"));
    assert!(str_precedes("a", "ab"));
    assert!(str_precedes("ab", "b"));
    assert!(str_precedes("z", "é"));
    assert!(str_precedes("é", "€"));
    for (a, b) in [("a-str", "b-field"), ("x", "é"), ("", ""), ("key1", "key10")] {
        assert_eq!(str_precedes(a, b), a < b);
        assert_eq!(str_precedes(b, a), b < a);
    }
}
