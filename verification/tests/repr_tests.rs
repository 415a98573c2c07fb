use rod::graph::{Field, Node, Value};
use rod::repr::{binary_to_scalar, scalar_to_value, BinaryData, FieldState, JsonField,
    JsonNode, JsonNodeMeta, JsonValue};
use rod::store::StoreError;
use rod::ulid::Ulid;

fn value_eq(a: &Value, b: &Value) -> bool {
    match (a, b) {
        (Value::Empty, Value::Empty) => true,
        (Value::Bool(x), Value::Bool(y)) => x == y,
        (Value::Int(x), Value::Int(y)) => x == y,
        (Value::Float(x), Value::Float(y)) => x == y,
        (Value::Text(x), Value::Text(y)) => x == y,
        (Value::Binary(x), Value::Binary(y)) => x == y,
        (Value::Link(x), Value::Link(y)) => x == y,
        _ => false,
    }
}

#[test]
fn wire_shape_round_trip_every_kind() {
    let mut node = Node::with_id(Ulid(11));
    node.set_field("empty", Field::new_at(Value::Empty, 1));
    node.set_field("flag", Field::new_at(Value::Bool(false), 2));
    node.set_field("count", Field::new_at(Value::Int(7), 3));
    node.set_field("ratio", Field::new_at(Value::Float(2.25f64.to_bits()), 4));
    node.set_field("name", Field::new_at(Value::Text(String::from("John")), 5));
    node.set_field("blob", Field::new_at(Value::Binary(vec![9, 8, 7]), 6));
    node.set_field("wife", Field::new_at(Value::Link(Ulid(12)), 7));

    let wire = JsonNode::from_node(&node);
    assert_eq!(wire.meta.id, Ulid(11));
    assert_eq!(wire.fields.len(), node.len());
    assert_eq!(wire.meta.field_states.len(), node.len());

    let rebuilt = wire.into_node().unwrap();
    assert_eq!(rebuilt.id, node.id);
    assert_eq!(rebuilt.len(), node.len());
    for entry in node.entries() {
        let field = rebuilt.get(entry.name.as_str()).unwrap();
        assert_eq!(field.state(), entry.field.state());
        assert!(value_eq(field.value(), entry.field.value()));
    }
}

#[test]
fn wire_shape_rejects_a_field_without_a_timestamp() {
    let wire = JsonNode {
        meta: JsonNodeMeta { id: Ulid(1), field_states: Vec::new() },
        fields: vec![JsonField { name: String::from("x"), value: JsonValue::Int(1) }],
    };
    assert_eq!(wire.into_node().unwrap_err(), StoreError::UnrecognizedData);
}

#[test]
fn wire_shape_rejects_a_duplicated_field_name() {
    let wire = JsonNode {
        meta: JsonNodeMeta {
            id: Ulid(1),
            field_states: vec![FieldState { name: String::from("x"), updated_at: 3 }],
        },
        fields: vec![
            JsonField { name: String::from("x"), value: JsonValue::Int(1) },
            JsonField { name: String::from("x"), value: JsonValue::Int(2) },
        ],
    };
    assert_eq!(wire.into_node().unwrap_err(), StoreError::UnrecognizedData);
}

#[test]
fn binary_scalar_is_marked_base64() {
    let data = BinaryData(b"hello".to_vec());
    let scalar = binary_to_scalar(&data);
    assert_eq!(scalar, "$base64$aGVsbG8=");
}

#[test]
fn marked_scalar_decodes_back_to_binary() {
    let scalar = String::from("$base64$aGVsbG8=");
    match scalar_to_value(scalar).unwrap() {
        JsonValue::Binary(b) => assert_eq!(b.0, b"hello".to_vec()),
        _ => panic!("expected binary"),
    }
}

#[test]
fn plain_scalar_stays_text() {
    match scalar_to_value(String::from("just a string")).unwrap() {
        JsonValue::Text(t) => assert_eq!(t, "just a string"),
        _ => panic!("expected text"),
    }
    // Shorter than the marker itself.
    match scalar_to_value(String::from("$b")).unwrap() {
        JsonValue::Text(t) => assert_eq!(t, "$b"),
        _ => panic!("expected text"),
    }
}

#[test]
fn marked_scalar_with_bad_base64_is_rejected() {
    let err = scalar_to_value(String::from("$base64$!!!")).unwrap_err();
    assert_eq!(err, StoreError::ReadStringAsBinary);
}

#[test]
fn base64_payload_round_trip() {
    let data = BinaryData(vec![0, 255, 128, 1]);
    let text = data.to_base64();
    let back = BinaryData::from_base64(text.as_str()).unwrap();
    assert_eq!(back.0, vec![0, 255, 128, 1]);

    let err = BinaryData::from_base64("not base64 at all!").unwrap_err();
    assert_eq!(err, StoreError::ReadStringAsBinary);
}
