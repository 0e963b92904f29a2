use learn_shape::{FieldSet, JsonTrail, TrailObservationsResult, TrailValues};

fn keys(names: &[&str]) -> FieldSet {
    FieldSet::from_keys(names.iter().map(|name| String::from(*name)).collect())
}

fn object_at(trail: &JsonTrail, snapshots: &[&[&str]]) -> TrailValues {
    let mut values = TrailValues::new(trail);
    values.was_object = true;
    for snapshot in snapshots {
        values.insert_field_set(keys(snapshot));
    }
    values
}

fn flags(values: &TrailValues) -> [bool; 7] {
    [
        values.was_string,
        values.was_number,
        values.was_boolean,
        values.was_null,
        values.was_array,
        values.was_object,
        values.was_empty_array,
    ]
}

#[test]
fn new_values_have_seen_nothing() {
    let trail = JsonTrail::empty().with_object_key(String::from("a"));
    let values = TrailValues::new(&trail);
    assert_eq!(values.trail, trail);
    assert_eq!(flags(&values), [false; 7]);
    assert!(values.field_sets.is_empty());
    assert!(values.was_unknown());
}

#[test]
fn values_from_a_trail_have_seen_nothing() {
    let trail = JsonTrail::empty().with_array_item(0);
    let values = TrailValues::from(trail.clone());
    assert_eq!(values.trail, trail);
    assert_eq!(flags(&values), [false; 7]);
    assert!(values.field_sets.is_empty());
}

#[test]
fn was_unknown_looks_at_every_flag_but_the_object_flag() {
    let root = JsonTrail::empty();
    let mut values = TrailValues::new(&root);
    values.was_object = true;
    assert!(values.was_unknown());

    for flag in 0..6 {
        let mut values = TrailValues::new(&root);
        match flag {
            0 => values.was_string = true,
            1 => values.was_number = true,
            2 => values.was_boolean = true,
            3 => values.was_null = true,
            4 => values.was_array = true,
            _ => values.was_empty_array = true,
        }
        assert!(!values.was_unknown());
    }
}

#[test]
fn a_field_set_is_dropped_where_a_subset_of_it_is_there() {
    let root = JsonTrail::empty();
    let mut values = TrailValues::new(&root);
    values.insert_field_set(keys(&["b", "c"]));
    values.insert_field_set(keys(&["a", "b", "c"]));
    assert_eq!(values.field_sets, vec![keys(&["b", "c"])]);

    values.insert_field_set(keys(&["c", "b"]));
    assert_eq!(values.field_sets, vec![keys(&["b", "c"])]);
}

#[test]
fn a_field_set_is_kept_where_only_supersets_of_it_are_there() {
    let root = JsonTrail::empty();
    let mut values = TrailValues::new(&root);
    values.insert_field_set(keys(&["a", "b", "c"]));
    values.insert_field_set(keys(&["b", "c"]));
    values.insert_field_set(keys(&["d"]));
    assert_eq!(
        values.field_sets,
        vec![keys(&["a", "b", "c"]), keys(&["b", "c"]), keys(&["d"])]
    );
}

#[test]
fn the_empty_field_set_absorbs_every_later_one() {
    let root = JsonTrail::empty();
    let mut values = TrailValues::new(&root);
    values.insert_field_set(keys(&[]));
    values.insert_field_set(keys(&["a"]));
    assert_eq!(values.field_sets, vec![keys(&[])]);
}

#[test]
fn union_keeps_every_flag_that_either_side_has() {
    let root = JsonTrail::empty();
    let mut left = TrailValues::new(&root);
    left.was_string = true;
    left.was_array = true;
    let mut right = TrailValues::new(&JsonTrail::empty().with_array_item(0));
    right.was_null = true;
    right.was_array = true;
    right.was_empty_array = true;

    left.union(right);
    assert_eq!(left.trail, root);
    assert_eq!(flags(&left), [true, false, false, true, true, false, true]);
}

#[test]
fn union_offers_the_field_sets_in_their_order() {
    let root = JsonTrail::empty();
    let mut left = object_at(&root, &[&["a", "b"]]);
    let right = object_at(&root, &[&["c"], &["a", "b", "d"], &["a"]]);
    left.union(right);
    assert_eq!(
        left.field_sets,
        vec![keys(&["a", "b"]), keys(&["c"]), keys(&["a"])]
    );
}

#[test]
fn merging_three_values_gives_the_same_in_either_grouping() {
    let root = JsonTrail::empty();
    let a = || {
        let mut values = object_at(&root, &[&["a", "b"], &["c"]]);
        values.was_string = true;
        values
    };
    let b = || {
        let mut values = object_at(&root, &[&["a"], &["c", "d"]]);
        values.was_null = true;
        values
    };
    let c = || {
        let mut values = object_at(&root, &[&["d"], &["a", "e"], &["f"]]);
        values.was_number = true;
        values
    };

    let mut left = a();
    left.union(b());
    left.union(c());

    let mut right_inner = b();
    right_inner.union(c());
    let mut right = a();
    right.union(right_inner);

    assert_eq!(flags(&left), flags(&right));
    assert_eq!(left.field_sets, right.field_sets);
    assert_eq!(
        left.field_sets,
        vec![keys(&["a", "b"]), keys(&["c"]), keys(&["a"]), keys(&["d"]), keys(&["f"])]
    );
}

#[test]
fn merging_two_values_gives_the_same_sets_in_either_order_where_none_holds_another() {
    let root = JsonTrail::empty();
    let mut left = object_at(&root, &[&["a"], &["b", "c"]]);
    left.union(object_at(&root, &[&["d"], &["a"]]));
    let mut right = object_at(&root, &[&["d"], &["a"]]);
    right.union(object_at(&root, &[&["a"], &["b", "c"]]));

    assert_eq!(flags(&left), flags(&right));
    assert_eq!(left.field_sets, vec![keys(&["a"]), keys(&["b", "c"]), keys(&["d"])]);
    assert_eq!(right.field_sets, vec![keys(&["d"]), keys(&["a"]), keys(&["b", "c"])]);
}

#[test]
fn merging_two_values_loses_a_set_in_one_order_where_it_holds_a_set_of_the_other() {
    let root = JsonTrail::empty();
    let mut left = object_at(&root, &[&["a", "b"]]);
    left.union(object_at(&root, &[&["a"]]));
    let mut right = object_at(&root, &[&["a"]]);
    right.union(object_at(&root, &[&["a", "b"]]));

    assert_eq!(left.field_sets, vec![keys(&["a", "b"]), keys(&["a"])]);
    assert_eq!(right.field_sets, vec![keys(&["a"])]);
}

#[test]
fn a_map_without_observations_has_no_locations() {
    let observations = TrailObservationsResult::default();
    assert!(observations.trails().is_empty());
    assert!(observations.values().is_empty());
    assert!(observations.get(&JsonTrail::empty()).is_none());
    assert!(observations.is_complete());
}

#[test]
fn union_of_maps_merges_location_by_location() {
    let root = JsonTrail::empty();
    let a = root.with_object_key(String::from("a"));
    let b = root.with_object_key(String::from("b"));

    let mut target = TrailObservationsResult::new();
    let mut at_root = object_at(&root, &[&["a"]]);
    at_root.was_string = true;
    target.union_values(at_root);
    let mut at_a = TrailValues::new(&a);
    at_a.was_number = true;
    target.union_values(at_a);

    let mut incoming = TrailObservationsResult::new();
    let mut at_root = object_at(&root, &[&["b"], &["a", "b"]]);
    at_root.was_null = true;
    incoming.union_values(at_root);
    let mut at_b = TrailValues::new(&b);
    at_b.was_boolean = true;
    at_b.field_sets = vec![keys(&["x"]), keys(&["x", "y"])];
    incoming.union_values(at_b);

    target.union(incoming);

    let mut trails = target.trails();
    trails.sort_by(|x, y| {
        if x.precedes(y) {
            std::cmp::Ordering::Less
        } else if y.precedes(x) {
            std::cmp::Ordering::Greater
        } else {
            std::cmp::Ordering::Equal
        }
    });
    assert_eq!(trails, vec![root.clone(), a.clone(), b.clone()]);

    let at_root = target.get(&root).expect("the root was seen");
    assert_eq!(flags(at_root), [true, false, false, true, false, true, false]);
    assert_eq!(at_root.field_sets, vec![keys(&["a"]), keys(&["b"])]);

    let at_a = target.get(&a).expect("a was seen");
    assert_eq!(flags(at_a), [false, true, false, false, false, false, false]);

    // What is new to the target goes through the same rule as everything else.
    let at_b = target.get(&b).expect("b was seen");
    assert_eq!(flags(at_b), [false, false, true, false, false, false, false]);
    assert_eq!(at_b.field_sets, vec![keys(&["x"])]);
    assert_eq!(at_b.trail, b);
}

#[test]
fn union_of_maps_gives_the_same_in_either_grouping() {
    let root = JsonTrail::empty();
    let a = root.with_object_key(String::from("a"));
    let make = |string: bool, sets: &[&[&str]], with_a: bool| {
        let mut observations = TrailObservationsResult::new();
        let mut at_root = object_at(&root, sets);
        at_root.was_string = string;
        observations.union_values(at_root);
        if with_a {
            let mut at_a = TrailValues::new(&a);
            at_a.was_number = true;
            observations.union_values(at_a);
        }
        observations
    };
    let first = || make(true, &[&["a", "b"]], false);
    let second = || make(false, &[&["a"]], true);
    let third = || make(false, &[&["c"], &["a", "c"]], false);

    let mut left = first();
    left.union(second());
    left.union(third());

    let mut right_inner = second();
    right_inner.union(third());
    let mut right = first();
    right.union(right_inner);

    for trail in [&root, &a] {
        let l = left.get(trail).expect("seen on the left");
        let r = right.get(trail).expect("seen on the right");
        assert_eq!(flags(l), flags(r));
        assert_eq!(l.field_sets, r.field_sets);
    }
    assert_eq!(left.trails().len(), 2);
    assert_eq!(right.trails().len(), 2);
    assert_eq!(
        left.get(&root).expect("seen").field_sets,
        vec![keys(&["a", "b"]), keys(&["a"]), keys(&["c"])]
    );
}

#[test]
fn remove_takes_the_values_out() {
    let root = JsonTrail::empty();
    let mut observations = TrailObservationsResult::new();
    let mut values = TrailValues::new(&root);
    values.was_number = true;
    observations.union_values(values);

    assert!(observations.remove(&root.with_array_item(0)).is_none());
    let removed = observations.remove(&root).expect("the root was seen");
    assert!(removed.was_number);
    assert!(observations.get(&root).is_none());
    assert!(observations.remove(&root).is_none());
    assert!(observations.trails().is_empty());
}

#[test]
fn insert_replaces_the_values_at_their_location() {
    let root = JsonTrail::empty();
    let mut observations = TrailObservationsResult::new();
    let mut first = TrailValues::new(&root);
    first.was_number = true;
    assert!(observations.insert(first).is_none());

    let mut second = TrailValues::new(&root);
    second.was_string = true;
    let previous = observations.insert(second).expect("the root was seen");
    assert!(previous.was_number);

    let now = observations.get(&root).expect("the root is seen");
    assert_eq!(flags(now), [true, false, false, false, false, false, false]);
    assert_eq!(observations.values().len(), 1);
}

#[test]
fn observations_from_a_vector_merge_what_shares_a_location() {
    let root = JsonTrail::empty();
    let item = root.with_array_item(0);
    let mut first = TrailValues::new(&root);
    first.was_array = true;
    let mut second = TrailValues::new(&item);
    second.was_string = true;
    let mut third = TrailValues::new(&root);
    third.was_null = true;

    let observations = TrailObservationsResult::from(vec![first, second, third]);
    assert_eq!(observations.trails().len(), 2);
    let at_root = observations.get(&root).expect("the root was seen");
    assert_eq!(flags(at_root), [false, false, false, true, true, false, false]);
    let at_item = observations.get(&item).expect("the item was seen");
    assert_eq!(flags(at_item), [true, false, false, false, false, false, false]);
}

#[test]
fn field_sets_are_equal_whatever_the_order_of_their_keys() {
    assert_eq!(keys(&["a", "b"]), keys(&["b", "a", "a"]));
    assert_ne!(keys(&["a", "b"]), keys(&["a"]));
    assert!(keys(&["a"]).is_subset(&keys(&["b", "a"])));
    assert!(!keys(&["a", "c"]).is_subset(&keys(&["b", "a"])));
    assert!(keys(&[]).is_subset(&keys(&[])));

    let mut set = keys(&["a"]);
    assert!(set.insert(String::from("b")));
    assert!(!set.insert(String::from("a")));
    assert!(set.contains(&String::from("b")));
    assert!(!set.contains(&String::from("c")));
    assert_eq!(set.difference(&keys(&["a", "z"])), keys(&["b"]));
    set.extend(&keys(&["z", "a"]));
    assert_eq!(set, keys(&["a", "b", "z"]));
}
