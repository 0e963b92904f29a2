use learn_shape::{
    FieldSet, JsonTrail, ShapeCommand, ShapeKind, SpecIdGenerator, TrailObservationsResult,
    TrailValues,
};
use serde_json::Value;
use std::collections::{HashMap, HashSet};

#[derive(Debug, Default)]
struct TestIdGenerator {
    counter: usize,
}

impl SpecIdGenerator for TestIdGenerator {
    fn generate_id(&mut self, _prefix: &str) -> String {
        let id = format!("test-id-{}", self.counter);
        self.counter += 1;
        id
    }
}

fn json(text: &str) -> Value {
    serde_json::from_str(text).expect("test bodies are valid JSON")
}

fn observe_value(value: &Value, trail: &JsonTrail, observations: &mut TrailObservationsResult) {
    let mut values = TrailValues::new(trail);
    match value {
        Value::Null => values.was_null = true,
        Value::Bool(_) => values.was_boolean = true,
        Value::Number(_) => values.was_number = true,
        Value::String(_) => values.was_string = true,
        Value::Array(items) => {
            values.was_array = true;
            values.was_empty_array = items.is_empty();
        }
        Value::Object(fields) => {
            values.was_object = true;
            values.insert_field_set(FieldSet::from_keys(fields.keys().cloned().collect()));
        }
    }
    observations.union_values(values);
    match value {
        Value::Array(items) => {
            for item in items {
                observe_value(item, &trail.with_array_item(0), observations);
            }
        }
        Value::Object(fields) => {
            for (key, field) in fields {
                observe_value(field, &trail.with_object_key(key.clone()), observations);
            }
        }
        _ => {}
    }
}

fn observe_body_trails(body: Value) -> TrailObservationsResult {
    let mut observations = TrailObservationsResult::default();
    observe_value(&body, &JsonTrail::empty(), &mut observations);
    observations
}

fn convert(
    observations: TrailObservationsResult,
    id_generator: &mut TestIdGenerator,
    root_trail: &JsonTrail,
) -> (Option<String>, Vec<ShapeCommand>) {
    assert!(observations.is_complete());
    observations.into_commands(id_generator, root_trail)
}

fn fixed_parameter(kind: ShapeKind) -> Option<String> {
    kind.get_parameter_descriptor()
        .map(|descriptor| String::from(descriptor.shape_parameter_id))
}

/// A store that takes the commands in order and refuses what refers to
/// something it does not know, or declares something twice.
fn assert_valid_commands(commands: Vec<ShapeCommand>) {
    let mut shapes: HashMap<String, ShapeKind> = HashMap::new();
    let mut parameters: HashSet<(String, String)> = HashSet::new();
    let mut fields: HashSet<String> = HashSet::new();
    for command in commands {
        match command {
            ShapeCommand::AddShape { shape_id, shape_kind, .. } => {
                assert!(
                    shapes.insert(shape_id.clone(), shape_kind).is_none(),
                    "shape {} is declared twice",
                    shape_id
                );
            }
            ShapeCommand::AddField { field_id, shape_id, field_shape_id, .. } => {
                assert_eq!(shapes.get(&shape_id), Some(&ShapeKind::ObjectKind));
                assert!(shapes.contains_key(&field_shape_id));
                assert!(fields.insert(field_id));
            }
            ShapeCommand::AddShapeParameter { shape_parameter_id, shape_id, .. } => {
                assert!(shapes.contains_key(&shape_id));
                assert!(parameters.insert((shape_id, shape_parameter_id)));
            }
            ShapeCommand::SetParameterShape { shape_id, shape_parameter_id, provider_shape_id } => {
                let kind = *shapes.get(&shape_id).expect("generated commands must be valid");
                assert!(shapes.contains_key(&provider_shape_id));
                assert!(
                    fixed_parameter(kind) == Some(shape_parameter_id.clone())
                        || parameters.contains(&(shape_id, shape_parameter_id))
                );
            }
        }
    }
}

fn add_shape(id: &str, kind: ShapeKind) -> ShapeCommand {
    ShapeCommand::add_shape(String::from(id), kind, String::from(""))
}

fn set_parameter(owner: &str, parameter: &str, provider: &str) -> ShapeCommand {
    ShapeCommand::set_parameter_shape(
        String::from(owner),
        String::from(parameter),
        String::from(provider),
    )
}

fn add_parameter(parameter: &str, owner: &str) -> ShapeCommand {
    ShapeCommand::add_shape_parameter(String::from(parameter), String::from(owner), String::from(""))
}

fn add_field(key: &str, field: &str, owner: &str, shape: &str) -> ShapeCommand {
    ShapeCommand::add_field(
        String::from(key),
        String::from(field),
        String::from(owner),
        String::from(shape),
    )
}

#[test]
fn trail_observations_can_generate_commands_for_primitive_bodies() {
    let string_observations = observe_body_trails(json(r#""a string body""#));
    let number_observations = observe_body_trails(json("48"));
    let boolean_observations = observe_body_trails(json("true"));

    let mut test_id_generator = TestIdGenerator::default();

    let string_results = convert(string_observations, &mut test_id_generator, &JsonTrail::empty());
    assert!(string_results.0.is_some());
    assert_eq!(string_results.1.len(), 1);
    assert_valid_commands(vec![string_results.1[0].clone()]);
    assert_eq!(string_results.0, Some(String::from("test-id-0")));
    assert_eq!(string_results.1, vec![add_shape("test-id-0", ShapeKind::StringKind)]);

    let number_results = convert(number_observations, &mut test_id_generator, &JsonTrail::empty());
    assert!(number_results.0.is_some());
    assert_eq!(number_results.1.len(), 1);
    assert_valid_commands(vec![number_results.1[0].clone()]);
    assert_eq!(number_results.0, Some(String::from("test-id-1")));
    assert_eq!(number_results.1, vec![add_shape("test-id-1", ShapeKind::NumberKind)]);

    let boolean_results = convert(boolean_observations, &mut test_id_generator, &JsonTrail::empty());
    assert!(boolean_results.0.is_some());
    assert_eq!(boolean_results.1.len(), 1);
    assert_valid_commands(vec![boolean_results.1[0].clone()]);
    assert_eq!(boolean_results.0, Some(String::from("test-id-2")));
    assert_eq!(boolean_results.1, vec![add_shape("test-id-2", ShapeKind::BooleanKind)]);
}

#[test]
fn trail_observations_can_generate_commands_for_array_bodies() {
    let primitive_array_observations = observe_body_trails(json(r#"["a", "b", "c"]"#));
    let empty_array_observations = observe_body_trails(json("[]"));
    let polymorphic_array_observations = observe_body_trails(json(r#"["a", "b", 1, 2]"#));

    let mut test_id_generator = TestIdGenerator::default();

    let primitive_array_results =
        convert(primitive_array_observations, &mut test_id_generator, &JsonTrail::empty());
    assert!(primitive_array_results.0.is_some());
    assert_valid_commands(primitive_array_results.1.clone());
    assert_eq!(primitive_array_results.0, Some(String::from("test-id-1")));
    assert_eq!(
        primitive_array_results.1,
        vec![
            add_shape("test-id-0", ShapeKind::StringKind),
            add_shape("test-id-1", ShapeKind::ListKind),
            set_parameter("test-id-1", "$listItem", "test-id-0"),
        ]
    );

    let empty_array_results =
        convert(empty_array_observations, &mut test_id_generator, &JsonTrail::empty());
    assert!(empty_array_results.0.is_some());
    assert_valid_commands(empty_array_results.1.clone());
    assert_eq!(empty_array_results.0, Some(String::from("test-id-3")));
    assert_eq!(
        empty_array_results.1,
        vec![
            add_shape("test-id-3", ShapeKind::ListKind),
            add_shape("test-id-2", ShapeKind::UnknownKind),
            set_parameter("test-id-3", "$listItem", "test-id-2"),
        ]
    );

    let polymorphic_array_results =
        convert(polymorphic_array_observations, &mut test_id_generator, &JsonTrail::empty());
    assert!(polymorphic_array_results.0.is_some());
    assert_valid_commands(polymorphic_array_results.1.clone());
    assert_eq!(polymorphic_array_results.0, Some(String::from("test-id-9")));
    assert_eq!(
        polymorphic_array_results.1,
        vec![
            add_shape("test-id-4", ShapeKind::OneOfKind),
            add_shape("test-id-7", ShapeKind::StringKind),
            add_parameter("test-id-5", "test-id-4"),
            set_parameter("test-id-4", "test-id-5", "test-id-7"),
            add_shape("test-id-8", ShapeKind::NumberKind),
            add_parameter("test-id-6", "test-id-4"),
            set_parameter("test-id-4", "test-id-6", "test-id-8"),
            add_shape("test-id-9", ShapeKind::ListKind),
            set_parameter("test-id-9", "$listItem", "test-id-4"),
        ]
    );
}

#[test]
fn trail_observations_can_generate_commands_for_object_bodies() {
    let primitive_object_observations = observe_body_trails(json(
        r#"{
      "a-str": "a-value",
      "b-field": true,
      "c-field": 3
    }"#,
    ));
    let empty_object_observations = observe_body_trails(json("{}"));
    let nested_object_observations = observe_body_trails(json(
        r#"{
      "some-object": {
        "nested-field": "nested-value"
      },
      "other-field": true
    }"#,
    ));

    let mut test_id_generator = TestIdGenerator::default();

    let primitive_object_results =
        convert(primitive_object_observations, &mut test_id_generator, &JsonTrail::empty());
    assert!(primitive_object_results.0.is_some());
    assert_valid_commands(primitive_object_results.1.clone());
    assert_eq!(primitive_object_results.0, Some(String::from("test-id-6")));
    assert_eq!(
        primitive_object_results.1,
        vec![
            add_shape("test-id-0", ShapeKind::NumberKind),
            add_shape("test-id-1", ShapeKind::BooleanKind),
            add_shape("test-id-2", ShapeKind::StringKind),
            add_shape("test-id-6", ShapeKind::ObjectKind),
            add_field("a-str", "test-id-3", "test-id-6", "test-id-2"),
            add_field("b-field", "test-id-4", "test-id-6", "test-id-1"),
            add_field("c-field", "test-id-5", "test-id-6", "test-id-0"),
        ]
    );

    let empty_object_results =
        convert(empty_object_observations, &mut test_id_generator, &JsonTrail::empty());
    assert!(empty_object_results.0.is_some());
    assert_valid_commands(empty_object_results.1.clone());
    assert_eq!(empty_object_results.0, Some(String::from("test-id-7")));
    assert_eq!(empty_object_results.1, vec![add_shape("test-id-7", ShapeKind::ObjectKind)]);

    let nested_object_results =
        convert(nested_object_observations, &mut test_id_generator, &JsonTrail::empty());
    assert!(nested_object_results.0.is_some());
    assert_valid_commands(nested_object_results.1.clone());
    assert_eq!(nested_object_results.0, Some(String::from("test-id-14")));
    assert_eq!(
        nested_object_results.1,
        vec![
            add_shape("test-id-8", ShapeKind::StringKind),
            add_shape("test-id-10", ShapeKind::ObjectKind),
            add_field("nested-field", "test-id-9", "test-id-10", "test-id-8"),
            add_shape("test-id-11", ShapeKind::BooleanKind),
            add_shape("test-id-14", ShapeKind::ObjectKind),
            add_field("other-field", "test-id-12", "test-id-14", "test-id-11"),
            add_field("some-object", "test-id-13", "test-id-14", "test-id-10"),
        ]
    );
}

#[test]
fn trail_observations_can_generate_commands_for_object_with_optional_fields() {
    let complete_object_body = json(
        r#"{
      "a-str": "a-value",
      "b-field": true,
      "c-field": 3
    }"#,
    );
    let partial_object_body = json(
        r#"{
      "b-field": false,
      "c-field": 122
    }"#,
    );

    let complete_nested_optional_body = json(
        r#"{
      "nested": {
        "nested-field": "nested-value"
      },
      "other-field": true
    }"#,
    );
    let partial_nested_optional_body = json(
        r#"{
      "other-field": true
    }"#,
    );

    let primitive_object_observations = {
        let mut result = observe_body_trails(complete_object_body);
        result.union(observe_body_trails(partial_object_body));
        result
    };

    let nested_optional_observations = {
        let mut result = observe_body_trails(complete_nested_optional_body);
        result.union(observe_body_trails(partial_nested_optional_body));
        result
    };

    let mut test_id_generator = TestIdGenerator::default();

    let primitive_object_results =
        convert(primitive_object_observations, &mut test_id_generator, &JsonTrail::empty());
    assert!(primitive_object_results.0.is_some());
    assert_valid_commands(primitive_object_results.1.clone());
    assert_eq!(primitive_object_results.0, Some(String::from("test-id-7")));
    assert_eq!(
        primitive_object_results.1,
        vec![
            add_shape("test-id-0", ShapeKind::NumberKind),
            add_shape("test-id-1", ShapeKind::BooleanKind),
            add_shape("test-id-2", ShapeKind::StringKind),
            add_shape("test-id-7", ShapeKind::ObjectKind),
            add_shape("test-id-4", ShapeKind::OptionalKind),
            set_parameter("test-id-4", "$optionalInner", "test-id-2"),
            add_field("a-str", "test-id-3", "test-id-7", "test-id-4"),
            add_field("b-field", "test-id-5", "test-id-7", "test-id-1"),
            add_field("c-field", "test-id-6", "test-id-7", "test-id-0"),
        ]
    );

    let nested_optional_results =
        convert(nested_optional_observations, &mut test_id_generator, &JsonTrail::empty());
    assert!(nested_optional_results.0.is_some());
    assert_valid_commands(nested_optional_results.1.clone());
    assert_eq!(nested_optional_results.0, Some(String::from("test-id-15")));
    assert_eq!(
        nested_optional_results.1,
        vec![
            add_shape("test-id-8", ShapeKind::BooleanKind),
            add_shape("test-id-9", ShapeKind::StringKind),
            add_shape("test-id-11", ShapeKind::ObjectKind),
            add_field("nested-field", "test-id-10", "test-id-11", "test-id-9"),
            add_shape("test-id-15", ShapeKind::ObjectKind),
            add_shape("test-id-13", ShapeKind::OptionalKind),
            set_parameter("test-id-13", "$optionalInner", "test-id-11"),
            add_field("nested", "test-id-12", "test-id-15", "test-id-13"),
            add_field("other-field", "test-id-14", "test-id-15", "test-id-8"),
        ]
    );
}

#[test]
fn trail_observations_can_generate_commands_for_nullable_bodies() {
    let nullable_primitive_observations = {
        let mut result = observe_body_trails(json(r#""a-string-value""#));
        result.union(observe_body_trails(json("null")));
        result
    };

    let nullable_object_field_observations = {
        let mut result = observe_body_trails(json(r#"{ "nullable-field": "string" }"#));
        result.union(observe_body_trails(json(r#"{ "nullable-field": null }"#)));
        result
    };

    let nullable_array_item_observations = observe_body_trails(json(r#"["string-value", null]"#));

    let nullable_one_off_observations = {
        let mut result = observe_body_trails(json(r#""a-string-value""#));
        result.union(observe_body_trails(json("48")));
        result.union(observe_body_trails(json("null")));
        result
    };

    let only_null_observations = observe_body_trails(json("null"));

    let mut test_id_generator = TestIdGenerator::default();

    let nullable_primitive_results =
        convert(nullable_primitive_observations, &mut test_id_generator, &JsonTrail::empty());
    assert!(nullable_primitive_results.0.is_some());
    assert_valid_commands(nullable_primitive_results.1.clone());
    assert_eq!(nullable_primitive_results.0, Some(String::from("test-id-1")));
    assert_eq!(
        nullable_primitive_results.1,
        vec![
            add_shape("test-id-0", ShapeKind::StringKind),
            add_shape("test-id-1", ShapeKind::NullableKind),
            set_parameter("test-id-1", "$nullableInner", "test-id-0"),
        ]
    );

    let nullable_object_field_results =
        convert(nullable_object_field_observations, &mut test_id_generator, &JsonTrail::empty());
    assert!(nullable_object_field_results.0.is_some());
    assert_valid_commands(nullable_object_field_results.1.clone());
    assert_eq!(nullable_object_field_results.0, Some(String::from("test-id-5")));
    assert_eq!(
        nullable_object_field_results.1,
        vec![
            add_shape("test-id-2", ShapeKind::StringKind),
            add_shape("test-id-3", ShapeKind::NullableKind),
            set_parameter("test-id-3", "$nullableInner", "test-id-2"),
            add_shape("test-id-5", ShapeKind::ObjectKind),
            add_field("nullable-field", "test-id-4", "test-id-5", "test-id-3"),
        ]
    );

    let nullable_array_item_results =
        convert(nullable_array_item_observations, &mut test_id_generator, &JsonTrail::empty());
    assert!(nullable_array_item_results.0.is_some());
    assert_valid_commands(nullable_array_item_results.1.clone());
    assert_eq!(nullable_array_item_results.0, Some(String::from("test-id-8")));
    assert_eq!(
        nullable_array_item_results.1,
        vec![
            add_shape("test-id-6", ShapeKind::StringKind),
            add_shape("test-id-7", ShapeKind::NullableKind),
            set_parameter("test-id-7", "$nullableInner", "test-id-6"),
            add_shape("test-id-8", ShapeKind::ListKind),
            set_parameter("test-id-8", "$listItem", "test-id-7"),
        ]
    );

    let nullable_one_off_results =
        convert(nullable_one_off_observations, &mut test_id_generator, &JsonTrail::empty());
    assert!(nullable_one_off_results.0.is_some());
    assert_valid_commands(nullable_one_off_results.1.clone());
    assert_eq!(nullable_one_off_results.0, Some(String::from("test-id-14")));
    assert_eq!(
        nullable_one_off_results.1,
        vec![
            add_shape("test-id-9", ShapeKind::OneOfKind),
            add_shape("test-id-12", ShapeKind::StringKind),
            add_parameter("test-id-10", "test-id-9"),
            set_parameter("test-id-9", "test-id-10", "test-id-12"),
            add_shape("test-id-13", ShapeKind::NumberKind),
            add_parameter("test-id-11", "test-id-9"),
            set_parameter("test-id-9", "test-id-11", "test-id-13"),
            add_shape("test-id-14", ShapeKind::NullableKind),
            set_parameter("test-id-14", "$nullableInner", "test-id-9"),
        ]
    );

    let only_null_results =
        convert(only_null_observations, &mut test_id_generator, &JsonTrail::empty());
    assert!(only_null_results.0.is_some());
    assert_valid_commands(only_null_results.1.clone());
    assert_eq!(only_null_results.0, Some(String::from("test-id-16")));
    assert_eq!(
        only_null_results.1,
        vec![
            add_shape("test-id-15", ShapeKind::UnknownKind),
            add_shape("test-id-16", ShapeKind::NullableKind),
            set_parameter("test-id-16", "$nullableInner", "test-id-15"),
        ]
    );
}

#[test]
fn trail_observations_can_generate_commands_for_one_off_polymorphic_bodies() {
    let primitive_observations = {
        let mut observations = TrailObservationsResult::default();
        observations.union(observe_body_trails(json(r#""a string body""#)));
        observations.union(observe_body_trails(json("48")));
        observations.union(observe_body_trails(json("true")));
        observations
    };

    let collections_observations = {
        let mut observations = TrailObservationsResult::default();
        observations.union(observe_body_trails(json("[1, 2, 3]")));
        observations.union(observe_body_trails(json(r#"{ "a-field": "string" }"#)));
        observations
    };

    let mut test_id_generator = TestIdGenerator::default();

    let primitive_results =
        convert(primitive_observations, &mut test_id_generator, &JsonTrail::empty());
    assert!(primitive_results.0.is_some());
    assert_valid_commands(primitive_results.1.clone());
    assert_eq!(primitive_results.0, Some(String::from("test-id-0")));
    assert_eq!(
        primitive_results.1,
        vec![
            add_shape("test-id-0", ShapeKind::OneOfKind),
            add_shape("test-id-4", ShapeKind::StringKind),
            add_parameter("test-id-1", "test-id-0"),
            set_parameter("test-id-0", "test-id-1", "test-id-4"),
            add_shape("test-id-5", ShapeKind::NumberKind),
            add_parameter("test-id-2", "test-id-0"),
            set_parameter("test-id-0", "test-id-2", "test-id-5"),
            add_shape("test-id-6", ShapeKind::BooleanKind),
            add_parameter("test-id-3", "test-id-0"),
            set_parameter("test-id-0", "test-id-3", "test-id-6"),
        ]
    );

    let collections_results =
        convert(collections_observations, &mut test_id_generator, &JsonTrail::empty());
    assert!(collections_results.0.is_some());
    assert_valid_commands(collections_results.1.clone());
    assert_eq!(collections_results.0, Some(String::from("test-id-10")));
    assert_eq!(
        collections_results.1,
        vec![
            add_shape("test-id-7", ShapeKind::NumberKind),
            add_shape("test-id-8", ShapeKind::StringKind),
            add_shape("test-id-10", ShapeKind::OneOfKind),
            add_shape("test-id-13", ShapeKind::ListKind),
            set_parameter("test-id-13", "$listItem", "test-id-7"),
            add_parameter("test-id-11", "test-id-10"),
            set_parameter("test-id-10", "test-id-11", "test-id-13"),
            add_shape("test-id-14", ShapeKind::ObjectKind),
            add_field("a-field", "test-id-9", "test-id-14", "test-id-8"),
            add_parameter("test-id-12", "test-id-10"),
            set_parameter("test-id-10", "test-id-12", "test-id-14"),
        ]
    );
}

#[test]
fn trail_observations_can_generate_for_non_root_json_trails() {
    let complete_nested_object_body = json(
        r#"{
      "nested": {
        "nested-object": {
          "key1": true,
          "key2": 123,
          "key3": [1,2,3]
        }
      },
      "other-field": true
    }"#,
    );

    let json_trail = JsonTrail::empty()
        .with_object_key(String::from("nested"))
        .with_object_key(String::from("nested-object"));

    let collections_observations = {
        let mut observations = TrailObservationsResult::default();
        observations.union(observe_body_trails(complete_nested_object_body));
        observations
    };

    let mut test_id_generator = TestIdGenerator::default();

    let collections_results = convert(collections_observations, &mut test_id_generator, &json_trail);
    assert!(collections_results.0.is_some());
    assert_valid_commands(collections_results.1.clone());
    assert_eq!(collections_results.0, Some(String::from("test-id-8")));
    assert_eq!(
        collections_results.1,
        vec![
            add_shape("test-id-0", ShapeKind::BooleanKind),
            add_shape("test-id-1", ShapeKind::NumberKind),
            add_shape("test-id-2", ShapeKind::ListKind),
            set_parameter("test-id-2", "$listItem", "test-id-1"),
            add_shape("test-id-3", ShapeKind::NumberKind),
            add_shape("test-id-4", ShapeKind::BooleanKind),
            add_shape("test-id-8", ShapeKind::ObjectKind),
            add_field("key1", "test-id-5", "test-id-8", "test-id-4"),
            add_field("key2", "test-id-6", "test-id-8", "test-id-3"),
            add_field("key3", "test-id-7", "test-id-8", "test-id-2"),
            add_shape("test-id-10", ShapeKind::ObjectKind),
            add_field("nested-object", "test-id-9", "test-id-10", "test-id-8"),
            add_shape("test-id-13", ShapeKind::ObjectKind),
            add_field("nested", "test-id-11", "test-id-13", "test-id-10"),
            add_field("other-field", "test-id-12", "test-id-13", "test-id-0"),
        ]
    );
}

#[test]
fn trail_observations_does_not_generate_commands_for_orphaned_shapes() {
    let mut observations = {
        let mut observations = TrailObservationsResult::default();
        observations.union(observe_body_trails(json(
            r#"{
        "a-field": 3,
        "another-field": true
      }"#,
        )));
        observations.union(observe_body_trails(json(r#""a-string-body""#)));
        observations
    };

    let root_trail = JsonTrail::empty();
    let mut root_affordances = observations
        .remove(&root_trail)
        .expect("should have observed values for the root");

    // a user can choose which of the affordances to apply
    root_affordances.was_object = false;
    observations.insert(root_affordances);

    let mut test_id_generator = TestIdGenerator::default();

    let results = convert(observations, &mut test_id_generator, &root_trail);
    assert!(results.0.is_some());
    assert_valid_commands(results.1.clone());
    // The locations that the root no longer leads to keep their commands.
    assert_eq!(results.1.len(), 3);
    assert_eq!(results.0, Some(String::from("test-id-2")));
    assert_eq!(
        results.1,
        vec![
            add_shape("test-id-0", ShapeKind::BooleanKind),
            add_shape("test-id-1", ShapeKind::NumberKind),
            add_shape("test-id-2", ShapeKind::StringKind),
        ]
    );
}
