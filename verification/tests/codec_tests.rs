use rod::codec::{decode_mapping, decode_node, encode_mapping, encode_node};
use rod::graph::{Field, Node, Value};
use rod::store::StoreError;
use rod::ulid::Ulid;

fn value_eq(a: &Value, b: &Value) -> bool {
    match (a, b) {
        (Value::Empty, Value::Empty) => true,
        (Value::Bool(x), Value::Bool(y)) => x == y,
        (Value::Int(x), Value::Int(y)) => x == y,
        (Value::Float(x), Value::Float(y)) => x == y,
        (Value::Text(x), Value::Text(y)) => x == y,
        (Value::Binary(x), Value::Binary(y)) => x == y,
        (Value::Link(x), Value::Link(y)) => x == y,
        _ => false,
    }
}

fn node_of_every_kind() -> Node {
    let mut node = Node::with_id(Ulid(0x0102_0304_0506_0708_090A_0B0C_0D0E_0F10));
    node.set_field("empty", Field::new_at(Value::Empty, 1));
    node.set_field("flag", Field::new_at(Value::Bool(true), 2));
    node.set_field("count", Field::new_at(Value::Int(-42), 3));
    node.set_field("ratio", Field::new_at(Value::Float(1.5f64.to_bits()), 4));
    node.set_field("name", Field::new_at(Value::Text(String::from("Mary")), 5));
    node.set_field("blob", Field::new_at(Value::Binary(vec![0, 1, 254, 255]), 6));
    node.set_field("wife", Field::new_at(Value::Link(Ulid(99)), 7));
    node
}

#[test]
fn binary_round_trip_every_kind() {
    let node = node_of_every_kind();
    let bytes = encode_node(&node).unwrap();
    let decoded = decode_node(&bytes).unwrap();

    assert_eq!(decoded.id, node.id);
    assert_eq!(decoded.len(), node.len());
    for entry in node.entries() {
        let field = decoded.get(entry.name.as_str()).unwrap();
        assert_eq!(field.state(), entry.field.state());
        assert!(value_eq(field.value(), entry.field.value()));
    }
}

#[test]
fn decoded_bytes_reencode_identically() {
    // The decoder accepts only the encoding itself.
    let node = node_of_every_kind();
    let bytes = encode_node(&node).unwrap();
    let decoded = decode_node(&bytes).unwrap();
    let again = encode_node(&decoded).unwrap();
    assert_eq!(again, bytes);
}

#[test]
fn binary_round_trip_empty_node() {
    let node = Node::with_id(Ulid(5));
    let bytes = encode_node(&node).unwrap();
    let decoded = decode_node(&bytes).unwrap();
    assert_eq!(decoded.id, Ulid(5));
    assert_eq!(decoded.len(), 0);
}

#[test]
fn encoding_is_the_documented_byte_layout() {
    // id 1, one field "a"@2 = Bool(true).
    let mut node = Node::with_id(Ulid(1));
    node.set_field("a", Field::new_at(Value::Bool(true), 2));
    let bytes = encode_node(&node).unwrap();

    let mut expected: Vec<u8> = Vec::new();
    expected.extend_from_slice(&1u128.to_le_bytes());
    expected.extend_from_slice(&1u32.to_le_bytes());
    expected.extend_from_slice(&1u32.to_le_bytes());
    expected.push(b'a');
    expected.extend_from_slice(&2u64.to_le_bytes());
    expected.push(1); // tag: boolean
    expected.push(1); // true
    assert_eq!(bytes, expected);
}

#[test]
fn binary_round_trip_with_unicode_text() {
    let mut node = Node::with_id(Ulid(77));
    node.set_field("café", Field::new_at(Value::Text(String::from("日本語 🦀")), 12));
    node.set_field("", Field::new_at(Value::Text(String::new()), 13));
    let bytes = encode_node(&node).unwrap();
    let decoded = decode_node(&bytes).unwrap();

    let f = decoded.get("café").unwrap();
    assert_eq!(f.state(), 12);
    assert!(value_eq(f.value(), &Value::Text(String::from("日本語 🦀"))));
    let g = decoded.get("").unwrap();
    assert_eq!(g.state(), 13);
    assert!(value_eq(g.value(), &Value::Text(String::new())));
}

#[test]
fn decoding_rejects_short_input() {
    assert_eq!(decode_node(&Vec::new()).unwrap_err(), StoreError::UnrecognizedData);
    assert_eq!(decode_node(&vec![0u8; 19]).unwrap_err(), StoreError::UnrecognizedData);
}

#[test]
fn decoding_rejects_a_corrupt_tag() {
    let mut node = Node::with_id(Ulid(1));
    node.set_field("a", Field::new_at(Value::Bool(true), 2));
    let mut bytes = encode_node(&node).unwrap();
    let tag_index = bytes.len() - 2;
    bytes[tag_index] = 9;
    assert_eq!(decode_node(&bytes).unwrap_err(), StoreError::UnrecognizedData);
}

#[test]
fn decoding_rejects_trailing_bytes() {
    let node = Node::with_id(Ulid(1));
    let mut bytes = encode_node(&node).unwrap();
    bytes.push(0);
    assert_eq!(decode_node(&bytes).unwrap_err(), StoreError::UnrecognizedData);
}

#[test]
fn decoding_rejects_truncated_input() {
    let node = node_of_every_kind();
    let bytes = encode_node(&node).unwrap();
    let cut = bytes[..bytes.len() - 1].to_vec();
    assert_eq!(decode_node(&cut).unwrap_err(), StoreError::UnrecognizedData);
}

#[test]
fn decoding_rejects_a_duplicated_field_name() {
    // Hand-built: id 0, two fields both named "a".
    let mut bytes: Vec<u8> = Vec::new();
    bytes.extend_from_slice(&0u128.to_le_bytes());
    bytes.extend_from_slice(&2u32.to_le_bytes());
    for _ in 0..2 {
        bytes.extend_from_slice(&1u32.to_le_bytes());
        bytes.push(b'a');
        bytes.extend_from_slice(&7u64.to_le_bytes());
        bytes.push(0); // tag: empty
    }
    assert_eq!(decode_node(&bytes).unwrap_err(), StoreError::UnrecognizedData);
}

#[test]
fn decoding_rejects_invalid_name_bytes() {
    let mut bytes: Vec<u8> = Vec::new();
    bytes.extend_from_slice(&0u128.to_le_bytes());
    bytes.extend_from_slice(&1u32.to_le_bytes());
    bytes.extend_from_slice(&1u32.to_le_bytes());
    bytes.push(0xFF); // not UTF-8
    bytes.extend_from_slice(&7u64.to_le_bytes());
    bytes.push(0);
    assert_eq!(decode_node(&bytes).unwrap_err(), StoreError::UnrecognizedData);
}

#[test]
fn mapping_round_trip() {
    let some = encode_mapping(&Some(Ulid(7)));
    assert_eq!(decode_mapping(&some).unwrap(), Some(Ulid(7)));

    let none = encode_mapping(&None);
    assert_eq!(decode_mapping(&none).unwrap(), None);

    // The exact layouts.
    assert_eq!(none, vec![0u8]);
    let mut expected = vec![1u8];
    expected.extend_from_slice(&7u128.to_le_bytes());
    assert_eq!(some, expected);
}

#[test]
fn mapping_rejects_garbage() {
    assert_eq!(decode_mapping(&Vec::new()).unwrap_err(), StoreError::UnrecognizedData);
    assert_eq!(decode_mapping(&vec![2u8]).unwrap_err(), StoreError::UnrecognizedData);
    assert_eq!(decode_mapping(&vec![1u8, 0u8]).unwrap_err(), StoreError::UnrecognizedData);
}
