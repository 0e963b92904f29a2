use learn_shape::builder::{find_prototype, nullable_prototype};
use learn_shape::prototype::{FieldPrototypeDescriptor, ShapePrototype, ShapePrototypeDescriptor};
use learn_shape::reachability::shape_prototypes_trails;
use learn_shape::synthesis::shape_prototypes_to_commands;
use learn_shape::{
    FieldSet, IdSource, JsonTrail, ShapeCommand, ShapeKind, SpecIdGenerator,
    TrailObservationsResult, TrailValues,
};
use std::collections::HashSet;

struct Counter {
    next: usize,
    prefixes: Vec<String>,
}

impl Counter {
    fn new() -> Counter {
        Counter { next: 0, prefixes: Vec::new() }
    }
}

impl SpecIdGenerator for Counter {
    fn generate_id(&mut self, prefix: &str) -> String {
        self.prefixes.push(String::from(prefix));
        let id = format!("id-{}", self.next);
        self.next += 1;
        id
    }
}

fn keys(names: &[&str]) -> FieldSet {
    FieldSet::from_keys(names.iter().map(|name| String::from(*name)).collect())
}

fn text(value: &str) -> String {
    String::from(value)
}

fn add_shape(id: &str, kind: ShapeKind) -> ShapeCommand {
    ShapeCommand::add_shape(text(id), kind, text(""))
}

fn set_parameter(owner: &str, parameter: &str, provider: &str) -> ShapeCommand {
    ShapeCommand::set_parameter_shape(text(owner), text(parameter), text(provider))
}

fn add_parameter(parameter: &str, owner: &str) -> ShapeCommand {
    ShapeCommand::add_shape_parameter(text(parameter), text(owner), text(""))
}

fn add_field(key: &str, field: &str, owner: &str, shape: &str) -> ShapeCommand {
    ShapeCommand::add_field(text(key), text(field), text(owner), text(shape))
}

fn leaf(id: &str, trail: &JsonTrail, kind: ShapeKind) -> ShapePrototype {
    ShapePrototype {
        id: text(id),
        trail: trail.clone(),
        prototype_descriptor: ShapePrototypeDescriptor::PrimitiveKind { base_shape_kind: kind },
    }
}

fn seen(trail: &JsonTrail, mark: impl Fn(&mut TrailValues)) -> TrailValues {
    let mut values = TrailValues::new(trail);
    mark(&mut values);
    values
}

/// Tells whether every command refers only to shapes that an earlier command
/// declares.
fn refers_back(commands: &[ShapeCommand]) -> bool {
    let mut declared: HashSet<&str> = HashSet::new();
    for command in commands {
        let known = match command {
            ShapeCommand::AddShape { shape_id, .. } => {
                declared.insert(shape_id);
                true
            }
            ShapeCommand::AddField { shape_id, field_shape_id, .. } => {
                declared.contains(shape_id.as_str()) && declared.contains(field_shape_id.as_str())
            }
            ShapeCommand::AddShapeParameter { shape_id, .. } => declared.contains(shape_id.as_str()),
            ShapeCommand::SetParameterShape { shape_id, provider_shape_id, .. } => {
                declared.contains(shape_id.as_str()) && declared.contains(provider_shape_id.as_str())
            }
        };
        if !known {
            return false;
        }
    }
    true
}

#[test]
fn the_wrapper_kinds_have_one_fixed_parameter() {
    let parameter = |kind: ShapeKind| {
        kind.get_parameter_descriptor().map(|descriptor| descriptor.shape_parameter_id)
    };
    assert_eq!(parameter(ShapeKind::ListKind), Some("$listItem"));
    assert_eq!(parameter(ShapeKind::NullableKind), Some("$nullableInner"));
    assert_eq!(parameter(ShapeKind::OptionalKind), Some("$optionalInner"));
    for kind in [
        ShapeKind::ObjectKind,
        ShapeKind::OneOfKind,
        ShapeKind::StringKind,
        ShapeKind::NumberKind,
        ShapeKind::BooleanKind,
        ShapeKind::UnknownKind,
    ] {
        assert!(parameter(kind).is_none());
    }
}

#[test]
fn the_generator_is_asked_by_kind_of_identifier() {
    let mut ids = Counter::new();
    assert_eq!(ids.shape(), "id-0");
    assert_eq!(ids.field(), "id-1");
    assert_eq!(ids.shape_param(), "id-2");
    assert_eq!(ids.prefixes, vec![text("shape"), text("field"), text("shape")]);
}

#[test]
fn a_recording_source_hands_on_what_the_generator_gives() {
    let mut ids = Counter::new();
    {
        let mut source = IdSource::new(&mut ids);
        assert_eq!(source.field(), "id-0");
        assert_eq!(source.shape(), "id-1");
        assert_eq!(source.shape_param(), "id-2");
    }
    assert_eq!(ids.prefixes, vec![text("field"), text("shape"), text("shape")]);
    assert_eq!(ids.next, 3);
}

#[test]
fn a_conversion_with_a_recording_source_gives_the_same_commands() {
    let mut plain = Counter::new();
    let expected = nested_observations().into_commands(&mut plain, &JsonTrail::empty());

    let mut recorded = Counter::new();
    let mut source = IdSource::new(&mut recorded);
    let actual = nested_observations().into_commands_with(&mut source, &JsonTrail::empty());
    assert_eq!(actual, expected);
    assert_eq!(recorded.prefixes, plain.prefixes);

    let mut ids = Counter::new();
    let mut source = IdSource::new(&mut ids);
    let first = nested_observations().into_shape_prototypes_with(&mut source);
    let node = seen(&JsonTrail::empty(), |values| values.was_null = true)
        .into_shape_prototype_with(&mut source, &first);
    assert_eq!(node.id, format!("id-{}", plain.next + 1));
}

#[test]
fn no_prototypes_give_no_commands() {
    assert!(shape_prototypes_to_commands(vec![]).is_empty());
}

#[test]
fn leaves_give_one_declaration_each() {
    let root = JsonTrail::empty();
    let unknown = ShapePrototype {
        id: text("u"),
        trail: root.clone(),
        prototype_descriptor: ShapePrototypeDescriptor::Unknown,
    };
    let commands = shape_prototypes_to_commands(vec![
        leaf("s", &root, ShapeKind::StringKind),
        unknown,
        leaf("n", &root, ShapeKind::NumberKind),
    ]);
    assert_eq!(
        commands,
        vec![
            add_shape("s", ShapeKind::StringKind),
            add_shape("u", ShapeKind::UnknownKind),
            add_shape("n", ShapeKind::NumberKind),
        ]
    );
}

#[test]
fn a_nullable_shape_comes_after_what_it_wraps() {
    let root = JsonTrail::empty();
    let wrapped = nullable_prototype(text("outer"), leaf("inner", &root, ShapeKind::StringKind));
    assert_eq!(wrapped.id, "outer");
    assert_eq!(wrapped.trail, root);
    let commands = shape_prototypes_to_commands(vec![wrapped]);
    assert_eq!(
        commands,
        vec![
            add_shape("inner", ShapeKind::StringKind),
            add_shape("outer", ShapeKind::NullableKind),
            set_parameter("outer", "$nullableInner", "inner"),
        ]
    );
}

#[test]
fn a_polymorphic_shape_declares_each_branch_before_binding_it() {
    let root = JsonTrail::empty();
    let one_of = ShapePrototype {
        id: text("one-of"),
        trail: root.clone(),
        prototype_descriptor: ShapePrototypeDescriptor::OneOfShape {
            branches: vec![
                leaf("b0", &root, ShapeKind::StringKind),
                leaf("b1", &root, ShapeKind::BooleanKind),
                leaf("b2", &root, ShapeKind::NumberKind),
            ],
            parameter_ids: vec![text("first-parameter"), text("second-parameter")],
        },
    };
    // A branch without a parameter is left out, as the last one here.
    let commands = shape_prototypes_to_commands(vec![one_of]);
    assert_eq!(
        commands,
        vec![
            add_shape("one-of", ShapeKind::OneOfKind),
            add_shape("b0", ShapeKind::StringKind),
            add_parameter("first-parameter", "one-of"),
            set_parameter("one-of", "first-parameter", "b0"),
            add_shape("b1", ShapeKind::BooleanKind),
            add_parameter("second-parameter", "one-of"),
            set_parameter("one-of", "second-parameter", "b1"),
        ]
    );
}

#[test]
fn a_list_declares_its_item_only_where_no_item_was_seen() {
    let root = JsonTrail::empty();
    let list = |item_is_unknown: bool| ShapePrototype {
        id: text("list"),
        trail: root.clone(),
        prototype_descriptor: ShapePrototypeDescriptor::ListOfShape {
            item_shape_id: text("item"),
            item_is_unknown,
        },
    };
    assert_eq!(
        shape_prototypes_to_commands(vec![list(true)]),
        vec![
            add_shape("list", ShapeKind::ListKind),
            add_shape("item", ShapeKind::UnknownKind),
            set_parameter("list", "$listItem", "item"),
        ]
    );
    assert_eq!(
        shape_prototypes_to_commands(vec![list(false)]),
        vec![add_shape("list", ShapeKind::ListKind), set_parameter("list", "$listItem", "item")]
    );
}

#[test]
fn an_object_wraps_its_optional_fields() {
    let root = JsonTrail::empty();
    let object = ShapePrototype {
        id: text("object"),
        trail: root.clone(),
        prototype_descriptor: ShapePrototypeDescriptor::ObjectWithFields {
            fields: vec![
                FieldPrototypeDescriptor {
                    field_id: text("f0"),
                    key: text("plain"),
                    optional_shape_id: None,
                    value_shape_id: text("v0"),
                },
                FieldPrototypeDescriptor {
                    field_id: text("f1"),
                    key: text("maybe"),
                    optional_shape_id: Some(text("o1")),
                    value_shape_id: text("v1"),
                },
            ],
        },
    };
    assert_eq!(
        shape_prototypes_to_commands(vec![object]),
        vec![
            add_shape("object", ShapeKind::ObjectKind),
            add_field("plain", "f0", "object", "v0"),
            add_shape("o1", ShapeKind::OptionalKind),
            set_parameter("o1", "$optionalInner", "v1"),
            add_field("maybe", "f1", "object", "o1"),
        ]
    );
}

#[test]
fn the_node_of_a_location_is_the_last_one_built_there() {
    let root = JsonTrail::empty();
    let a = root.with_object_key(text("a"));
    let prototypes = vec![
        leaf("first", &a, ShapeKind::StringKind),
        leaf("root", &root, ShapeKind::NumberKind),
        leaf("second", &a, ShapeKind::BooleanKind),
    ];
    assert_eq!(find_prototype(&prototypes, &a).expect("a has a node").id, "second");
    assert_eq!(find_prototype(&prototypes, &root).expect("the root has a node").id, "root");
    assert!(find_prototype(&prototypes, &root.with_array_item(0)).is_none());
    assert!(find_prototype(&vec![], &root).is_none());
}

#[test]
fn a_string_alone_gives_a_string_node() {
    let root = JsonTrail::empty();
    let mut ids = Counter::new();
    let node = seen(&root, |values| values.was_string = true).into_shape_prototype(&mut ids, &vec![]);
    assert_eq!(node.id, "id-0");
    assert_eq!(node.trail, root);
    assert!(matches!(
        node.prototype_descriptor,
        ShapePrototypeDescriptor::PrimitiveKind { base_shape_kind: ShapeKind::StringKind }
    ));
    assert_eq!(ids.prefixes, vec![text("shape")]);
}

#[test]
fn nothing_seen_gives_an_unknown_node() {
    let root = JsonTrail::empty();
    let mut ids = Counter::new();
    let node = TrailValues::new(&root).into_shape_prototype(&mut ids, &vec![]);
    assert_eq!(node.id, "id-0");
    assert!(matches!(node.prototype_descriptor, ShapePrototypeDescriptor::Unknown));
}

#[test]
fn null_alone_gives_a_nullable_node_around_an_unknown_one() {
    let root = JsonTrail::empty();
    let mut ids = Counter::new();
    let node = seen(&root, |values| values.was_null = true).into_shape_prototype(&mut ids, &vec![]);
    assert_eq!(node.id, "id-1");
    assert_eq!(node.trail, root);
    match node.prototype_descriptor {
        ShapePrototypeDescriptor::NullableShape { shape } => {
            assert_eq!(shape.id, "id-0");
            assert_eq!(shape.trail, root);
            assert!(matches!(shape.prototype_descriptor, ShapePrototypeDescriptor::Unknown));
        }
        other => panic!("unexpected node {:?}", other),
    }
}

#[test]
fn null_with_a_string_gives_a_nullable_node_around_the_string_node() {
    let root = JsonTrail::empty();
    let mut left = seen(&root, |values| values.was_string = true);
    left.union(seen(&root, |values| values.was_null = true));
    let mut ids = Counter::new();
    let node = left.into_shape_prototype(&mut ids, &vec![]);
    match node.prototype_descriptor {
        ShapePrototypeDescriptor::NullableShape { shape } => assert!(matches!(
            shape.prototype_descriptor,
            ShapePrototypeDescriptor::PrimitiveKind { base_shape_kind: ShapeKind::StringKind }
        )),
        other => panic!("unexpected node {:?}", other),
    }
}

#[test]
fn every_kind_at_once_gives_a_branch_for_each_in_order() {
    let root = JsonTrail::empty();
    let item = root.with_array_item(0);
    let field = root.with_object_key(text("k"));
    let existing = vec![
        leaf("item", &item, ShapeKind::NumberKind),
        leaf("value", &field, ShapeKind::BooleanKind),
    ];
    let mut values = seen(&root, |values| {
        values.was_string = true;
        values.was_number = true;
        values.was_boolean = true;
        values.was_array = true;
        values.was_object = true;
    });
    values.insert_field_set(keys(&["k"]));
    let mut ids = Counter::new();
    let node = values.into_shape_prototype(&mut ids, &existing);

    // The field, then the node, then the parameters, then the branches.
    assert_eq!(
        ids.prefixes,
        vec!["field", "shape", "shape", "shape", "shape", "shape", "shape", "shape", "shape", "shape", "shape", "shape"]
    );
    assert_eq!(node.id, "id-1");
    match node.prototype_descriptor {
        ShapePrototypeDescriptor::OneOfShape { branches, parameter_ids } => {
            assert_eq!(parameter_ids, vec!["id-2", "id-3", "id-4", "id-5", "id-6"]);
            let branch_ids: Vec<&str> = branches.iter().map(|branch| branch.id.as_str()).collect();
            assert_eq!(branch_ids, vec!["id-7", "id-8", "id-9", "id-10", "id-11"]);
            for branch in &branches {
                assert_eq!(branch.trail, root);
            }
            assert!(matches!(
                branches[0].prototype_descriptor,
                ShapePrototypeDescriptor::PrimitiveKind { base_shape_kind: ShapeKind::StringKind }
            ));
            assert!(matches!(
                branches[1].prototype_descriptor,
                ShapePrototypeDescriptor::PrimitiveKind { base_shape_kind: ShapeKind::NumberKind }
            ));
            assert!(matches!(
                branches[2].prototype_descriptor,
                ShapePrototypeDescriptor::PrimitiveKind { base_shape_kind: ShapeKind::BooleanKind }
            ));
            match &branches[3].prototype_descriptor {
                ShapePrototypeDescriptor::ListOfShape { item_shape_id, item_is_unknown } => {
                    assert_eq!(item_shape_id, "item");
                    assert!(!item_is_unknown);
                }
                other => panic!("unexpected branch {:?}", other),
            }
            match &branches[4].prototype_descriptor {
                ShapePrototypeDescriptor::ObjectWithFields { fields } => {
                    assert_eq!(fields.len(), 1);
                    assert_eq!(fields[0].key, "k");
                    assert_eq!(fields[0].field_id, "id-0");
                    assert_eq!(fields[0].value_shape_id, "value");
                    assert_eq!(fields[0].optional_shape_id, None);
                }
                other => panic!("unexpected branch {:?}", other),
            }
        }
        other => panic!("unexpected node {:?}", other),
    }
}

#[test]
fn an_empty_array_without_items_gets_a_new_item_shape() {
    let root = JsonTrail::empty();
    let values = seen(&root, |values| {
        values.was_array = true;
        values.was_empty_array = true;
    });
    let mut ids = Counter::new();
    let node = values.into_shape_prototype(&mut ids, &vec![]);
    assert_eq!(node.id, "id-1");
    match node.prototype_descriptor {
        ShapePrototypeDescriptor::ListOfShape { item_shape_id, item_is_unknown } => {
            assert_eq!(item_shape_id, "id-0");
            assert!(item_is_unknown);
        }
        other => panic!("unexpected node {:?}", other),
    }
}

#[test]
fn an_array_seen_empty_and_with_items_takes_the_shape_of_its_items() {
    let root = JsonTrail::empty();
    let item = root.with_array_item(0);
    let existing = vec![leaf("item", &item, ShapeKind::StringKind)];
    let values = seen(&root, |values| {
        values.was_array = true;
        values.was_empty_array = true;
    });
    let mut ids = Counter::new();
    let node = values.into_shape_prototype(&mut ids, &existing);
    assert_eq!(node.id, "id-0");
    match node.prototype_descriptor {
        ShapePrototypeDescriptor::ListOfShape { item_shape_id, item_is_unknown } => {
            assert_eq!(item_shape_id, "item");
            assert!(!item_is_unknown);
        }
        other => panic!("unexpected node {:?}", other),
    }
}

#[test]
fn an_object_gets_its_fields_in_the_order_of_their_keys() {
    let root = JsonTrail::empty();
    let existing = vec![
        leaf("value-b", &root.with_object_key(text("b")), ShapeKind::StringKind),
        leaf("value-a", &root.with_object_key(text("a")), ShapeKind::NumberKind),
        leaf("value-c", &root.with_object_key(text("c")), ShapeKind::BooleanKind),
    ];
    let mut values = seen(&root, |values| values.was_object = true);
    values.insert_field_set(keys(&["c", "a", "b"]));
    values.insert_field_set(keys(&["b"]));
    let mut ids = Counter::new();
    let node = values.into_shape_prototype(&mut ids, &existing);
    assert_eq!(node.id, "id-5");
    match node.prototype_descriptor {
        ShapePrototypeDescriptor::ObjectWithFields { fields } => {
            let summary: Vec<(&str, &str, &str, Option<&str>)> = fields
                .iter()
                .map(|field| {
                    (
                        field.key.as_str(),
                        field.field_id.as_str(),
                        field.value_shape_id.as_str(),
                        field.optional_shape_id.as_deref(),
                    )
                })
                .collect();
            assert_eq!(
                summary,
                vec![
                    ("a", "id-0", "value-a", Some("id-1")),
                    ("b", "id-2", "value-b", None),
                    ("c", "id-3", "value-c", Some("id-4")),
                ]
            );
        }
        other => panic!("unexpected node {:?}", other),
    }
    assert_eq!(ids.prefixes, vec!["field", "shape", "field", "field", "shape", "shape"]);
}

#[test]
fn observations_are_incomplete_where_a_location_below_is_missing() {
    let root = JsonTrail::empty();

    let mut array_without_items = TrailObservationsResult::new();
    array_without_items.union_values(seen(&root, |values| values.was_array = true));
    assert!(!array_without_items.is_complete());
    array_without_items
        .union_values(seen(&root.with_array_item(0), |values| values.was_number = true));
    assert!(array_without_items.is_complete());

    let mut empty_array = TrailObservationsResult::new();
    empty_array.union_values(seen(&root, |values| {
        values.was_array = true;
        values.was_empty_array = true;
    }));
    assert!(empty_array.is_complete());

    let mut object_without_value = TrailObservationsResult::new();
    let mut at_root = seen(&root, |values| values.was_object = true);
    at_root.insert_field_set(keys(&["a", "b"]));
    object_without_value.union_values(at_root);
    object_without_value
        .union_values(seen(&root.with_object_key(text("a")), |values| values.was_null = true));
    assert!(!object_without_value.is_complete());
    object_without_value
        .union_values(seen(&root.with_object_key(text("b")), |values| values.was_null = true));
    assert!(object_without_value.is_complete());
}

#[test]
fn incomplete_observations_are_not_converted() {
    let root = JsonTrail::empty();
    let mut incomplete = TrailObservationsResult::new();
    incomplete.union_values(seen(&root, |values| values.was_array = true));
    let mut ids = Counter::new();
    assert!(incomplete.checked_into_commands(&mut ids, &root).is_none());
    assert_eq!(ids.next, 0);

    let mut complete = TrailObservationsResult::new();
    complete.union_values(seen(&root, |values| values.was_array = true));
    complete.union_values(seen(&root.with_array_item(0), |values| values.was_string = true));
    let (root_id, commands) =
        complete.checked_into_commands(&mut ids, &root).expect("the observations are complete");
    assert_eq!(root_id, Some(text("id-1")));
    assert_eq!(
        commands,
        vec![
            add_shape("id-0", ShapeKind::StringKind),
            add_shape("id-1", ShapeKind::ListKind),
            set_parameter("id-1", "$listItem", "id-0"),
        ]
    );
}

#[test]
fn copies_of_observations_hold_the_same() {
    let observations = nested_observations();
    let copy = observations.clone();
    let mut first = Counter::new();
    let mut second = Counter::new();
    assert_eq!(
        observations.into_commands(&mut first, &JsonTrail::empty()),
        copy.into_commands(&mut second, &JsonTrail::empty())
    );
}

#[test]
fn no_observations_give_no_root_and_no_commands() {
    let mut ids = Counter::new();
    let observations = TrailObservationsResult::new();
    assert!(observations.is_complete());
    let (root, commands) = observations.into_commands(&mut ids, &JsonTrail::empty());
    assert_eq!(root, None);
    assert!(commands.is_empty());
    assert_eq!(ids.next, 0);
}

#[test]
fn a_root_that_was_not_seen_gives_no_identifier() {
    let root = JsonTrail::empty();
    let mut observations = TrailObservationsResult::new();
    observations.union_values(seen(&root, |values| values.was_boolean = true));
    let mut ids = Counter::new();
    let (root_id, commands) = observations.into_commands(&mut ids, &root.with_object_key(text("a")));
    assert_eq!(root_id, None);
    assert_eq!(commands, vec![add_shape("id-0", ShapeKind::BooleanKind)]);
}

fn nested_observations() -> TrailObservationsResult {
    let root = JsonTrail::empty();
    let list = root.with_object_key(text("list"));
    let item = list.with_array_item(0);
    let name = item.with_object_key(text("name"));
    let tags = item.with_object_key(text("tags"));
    let count = root.with_object_key(text("count"));

    let mut observations = TrailObservationsResult::new();
    let mut at_root = seen(&root, |values| {
        values.was_object = true;
        values.was_null = true;
    });
    at_root.insert_field_set(keys(&["list", "count"]));
    at_root.insert_field_set(keys(&["list"]));
    observations.union_values(at_root);
    observations.union_values(seen(&list, |values| values.was_array = true));
    let mut at_item = seen(&item, |values| {
        values.was_object = true;
        values.was_string = true;
    });
    at_item.insert_field_set(keys(&["name", "tags"]));
    observations.union_values(at_item);
    observations.union_values(seen(&name, |values| {
        values.was_string = true;
        values.was_number = true;
        values.was_null = true;
    }));
    observations.union_values(seen(&tags, |values| {
        values.was_array = true;
        values.was_empty_array = true;
    }));
    observations.union_values(seen(&count, |values| values.was_number = true));
    observations
}

#[test]
fn the_tree_is_built_from_the_deepest_location_up() {
    let observations = nested_observations();
    assert!(observations.is_complete());
    let mut ids = Counter::new();
    let prototypes = observations.into_shape_prototypes(&mut ids);
    let root = JsonTrail::empty();
    let list = root.with_object_key(text("list"));
    let item = list.with_array_item(0);
    let trails: Vec<JsonTrail> = prototypes.iter().map(|node| node.trail.clone()).collect();
    assert_eq!(
        trails,
        vec![
            item.with_object_key(text("tags")),
            item.with_object_key(text("name")),
            item.clone(),
            list.clone(),
            root.with_object_key(text("count")),
            root.clone(),
        ]
    );
    for (earlier, later) in trails.iter().zip(trails.iter().skip(1)) {
        assert!(later.precedes(earlier));
    }
}

#[test]
fn the_commands_of_a_nested_body_never_refer_forward() {
    let observations = nested_observations();
    let mut ids = Counter::new();
    let (root_id, commands) = observations.into_commands(&mut ids, &JsonTrail::empty());
    assert!(refers_back(&commands));
    let declared: Vec<&String> = commands
        .iter()
        .filter_map(|command| match command {
            ShapeCommand::AddShape { shape_id, .. } => Some(shape_id),
            _ => None,
        })
        .collect();
    let distinct: HashSet<&String> = declared.iter().cloned().collect();
    assert_eq!(declared.len(), distinct.len());
    assert!(distinct.contains(&root_id.expect("the root was seen")));
    assert_eq!(commands.len(), 31);
}

#[test]
fn a_forward_reference_is_told_apart() {
    let commands = vec![
        set_parameter("list", "$listItem", "item"),
        add_shape("list", ShapeKind::ListKind),
    ];
    assert!(!refers_back(&commands));
    let reordered = vec![
        add_shape("item", ShapeKind::StringKind),
        add_shape("list", ShapeKind::ListKind),
        set_parameter("list", "$listItem", "item"),
    ];
    assert!(refers_back(&reordered));
}

#[test]
fn the_leaves_of_a_node_are_found_through_lists_and_objects() {
    let observations = nested_observations();
    let mut ids = Counter::new();
    let prototypes = observations.into_shape_prototypes(&mut ids);
    let root = JsonTrail::empty();
    let list = root.with_object_key(text("list"));
    let item = list.with_array_item(0);

    let from_root = shape_prototypes_trails(find_prototype(&prototypes, &root), &prototypes);
    assert_eq!(
        from_root,
        vec![
            root.with_object_key(text("count")),
            item.clone(),
            item.with_object_key(text("name")),
            item.with_object_key(text("name")),
        ]
    );

    let from_name = shape_prototypes_trails(
        find_prototype(&prototypes, &item.with_object_key(text("name"))),
        &prototypes,
    );
    assert_eq!(from_name.len(), 2);

    // An empty array has no node for its items, and so leads nowhere.
    let from_tags = shape_prototypes_trails(
        find_prototype(&prototypes, &item.with_object_key(text("tags"))),
        &prototypes,
    );
    assert!(from_tags.is_empty());

    assert!(shape_prototypes_trails(None, &prototypes).is_empty());
}

#[test]
fn a_location_cut_off_from_the_root_is_not_among_its_leaves() {
    let root = JsonTrail::empty();
    let mut observations = TrailObservationsResult::new();
    observations.union_values(seen(&root, |values| values.was_string = true));
    observations.union_values(seen(&root.with_object_key(text("a")), |values| {
        values.was_number = true
    }));
    let mut ids = Counter::new();
    let prototypes = observations.into_shape_prototypes(&mut ids);
    assert_eq!(prototypes.len(), 2);
    let leaves = shape_prototypes_trails(find_prototype(&prototypes, &root), &prototypes);
    assert_eq!(leaves, vec![root]);
}
