use rod::engine::NodeProxy;
use rod::graph::{Field, Node, Value};
use rod::ulid::Ulid;

fn value_eq(a: &Value, b: &Value) -> bool {
    match (a, b) {
        (Value::Empty, Value::Empty) => true,
        (Value::Bool(x), Value::Bool(y)) => x == y,
        (Value::Int(x), Value::Int(y)) => x == y,
        (Value::Float(x), Value::Float(y)) => x == y,
        (Value::Text(x), Value::Text(y)) => x == y,
        (Value::Binary(x), Value::Binary(y)) => x == y,
        (Value::Link(x), Value::Link(y)) => x == y,
        _ => false,
    }
}

#[test]
fn node_merge_takes_newer_fields_and_adds_new_ones() {
    // Stored {name@10 = "Alice"}; incoming {name@20 = "Bob", age@5 = 30}.
    let id = Ulid(7);
    let mut stored = Node::with_id(id);
    stored.set_field("name", Field::new_at(Value::Text(String::from("Alice")), 10));

    let mut incoming = Node::with_id(id);
    incoming.set_field("name", Field::new_at(Value::Text(String::from("Bob")), 20));
    incoming.set_field("age", Field::new_at(Value::Int(30), 5));

    let deferred = incoming.merge_into(&mut stored, 100);
    assert!(deferred.is_empty());

    let name = stored.get("name").unwrap();
    assert!(value_eq(name.value(), &Value::Text(String::from("Bob"))));
    assert_eq!(name.state(), 20);

    let age = stored.get("age").unwrap();
    assert!(value_eq(age.value(), &Value::Int(30)));
    assert_eq!(age.state(), 5);

    assert_eq!(stored.len(), 2);
}

#[test]
fn node_merge_never_removes_one_sided_fields() {
    let id = Ulid(9);
    let mut target = Node::with_id(id);
    target.set_field("keep", Field::new_at(Value::Int(1), 5));

    let mut incoming = Node::with_id(id);
    incoming.set_field("other", Field::new_at(Value::Int(2), 7));

    incoming.merge_into(&mut target, 100);

    assert!(target.get("keep").is_some());
    assert!(target.get("other").is_some());
    assert_eq!(target.len(), 2);
}

#[test]
fn node_merge_reports_deferred_fields() {
    let id = Ulid(3);
    let now: u64 = 1_000;
    let mut target = Node::with_id(id);
    target.set_field("name", Field::new_at(Value::Int(1), 10));

    let mut incoming = Node::with_id(id);
    incoming.set_field("name", Field::new_at(Value::Int(2), now + 500));

    let deferred = incoming.merge_into(&mut target, now);
    assert_eq!(deferred.len(), 1);
    assert_eq!(deferred[0].name, "name");
    assert_eq!(deferred[0].field.state(), now + 500);

    // The target is untouched until the clock catches up.
    let f = target.get("name").unwrap();
    assert!(value_eq(f.value(), &Value::Int(1)));
    assert_eq!(f.state(), 10);
}

#[test]
fn node_merge_resolves_each_field_independently() {
    let id = Ulid(4);
    let mut target = Node::with_id(id);
    target.set_field("a", Field::new_at(Value::Int(1), 10));
    target.set_field("b", Field::new_at(Value::Int(9), 10));

    let mut incoming = Node::with_id(id);
    incoming.set_field("a", Field::new_at(Value::Int(2), 10));
    incoming.set_field("b", Field::new_at(Value::Int(3), 10));

    incoming.merge_into(&mut target, 100);

    // Same timestamps everywhere: each field keeps its dominant value.
    assert!(value_eq(target.get("a").unwrap().value(), &Value::Int(2)));
    assert!(value_eq(target.get("b").unwrap().value(), &Value::Int(9)));
}

#[test]
fn setting_a_field_replaces_the_previous_one() {
    let mut node = Node::new();
    node.set_field("x", Field::new_at(Value::Int(1), 1));
    node.set_field("x", Field::new_at(Value::Int(2), 2));
    assert_eq!(node.len(), 1);
    let f = node.get("x").unwrap();
    assert!(value_eq(f.value(), &Value::Int(2)));
    assert_eq!(f.state(), 2);
}

#[test]
fn getting_a_missing_field_yields_nothing() {
    let node = Node::new();
    assert!(node.get("missing").is_none());
}

#[test]
fn proxy_set_and_get_round_trip() {
    let mut proxy = NodeProxy::new(Node::new());
    proxy.set_at("x", Value::Int(1), 42);
    let v = proxy.get("x").unwrap();
    assert!(value_eq(&v.owned(), &Value::Int(1)));
    assert!(proxy.get("y").is_none());
}

#[test]
fn proxy_set_stamps_with_the_clock() {
    let mut proxy = NodeProxy::new(Node::new());
    proxy.set("y", Value::Bool(true));
    let node = proxy.into_node();
    let f = node.get("y").unwrap();
    assert!(value_eq(f.value(), &Value::Bool(true)));
    assert!(f.state() > 0);
}

#[test]
fn value_ref_follows_only_links() {
    let mut proxy = NodeProxy::new(Node::new());
    proxy.set_at("wife", Value::Link(Ulid(77)), 1);
    proxy.set_at("age", Value::Int(32), 1);

    let wife = proxy.get("wife").unwrap();
    assert_eq!(wife.follow_target(), Some(Ulid(77)));

    let age = proxy.get("age").unwrap();
    assert_eq!(age.follow_target(), None);
}

#[test]
fn fresh_nodes_are_empty_with_distinct_ids() {
    let a = Node::new();
    let b = Node::new();
    assert_eq!(a.len(), 0);
    assert_eq!(b.len(), 0);
    assert_ne!(a.id, b.id);
}
