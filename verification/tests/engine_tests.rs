use std::collections::HashMap;

use rod::codec::{decode_mapping, decode_node, encode_mapping, encode_node};
use rod::engine::Engine;
use rod::graph::{Field, Node, Value};
use rod::ulid::Ulid;

fn value_eq(a: &Value, b: &Value) -> bool {
    match (a, b) {
        (Value::Empty, Value::Empty) => true,
        (Value::Bool(x), Value::Bool(y)) => x == y,
        (Value::Int(x), Value::Int(y)) => x == y,
        (Value::Float(x), Value::Float(y)) => x == y,
        (Value::Text(x), Value::Text(y)) => x == y,
        (Value::Binary(x), Value::Binary(y)) => x == y,
        (Value::Link(x), Value::Link(y)) => x == y,
        _ => false,
    }
}

/// A synchronous stand-in for a persistence backend, holding the same
/// encoded bytes a real one would.
struct PlayStore {
    nodes: HashMap<u128, Vec<u8>>,
    ids: HashMap<String, Vec<u8>>,
}

impl PlayStore {
    fn new() -> PlayStore {
        PlayStore { nodes: HashMap::new(), ids: HashMap::new() }
    }

    fn get_node(&self, id: u128) -> Option<Node> {
        self.nodes.get(&id).map(|bytes| decode_node(bytes).unwrap())
    }

    fn put_node(&mut self, node: &Node) {
        self.nodes.insert(node.id.0, encode_node(node).unwrap());
    }

    fn set_id(&mut self, key: &str, id: Option<Ulid>) {
        self.ids.insert(key.to_string(), encode_mapping(&id));
    }

    fn get_id(&self, key: &str) -> Option<Option<Ulid>> {
        self.ids.get(key).map(|bytes| decode_mapping(bytes).unwrap())
    }
}

/// The get flow the asynchronous shell drives: resolve the key, consult
/// the cache, fall back to the store, and materialize a fresh node on a
/// miss, persisting it at once.
fn get_by_key(engine: &mut Engine, store: &mut PlayStore, key: &str) -> Node {
    let resolved = store.get_id(key).flatten();
    let id = match resolved {
        Some(id) => id,
        None => Ulid::new(),
    };
    get_by_id(engine, store, id)
}

fn get_by_id(engine: &mut Engine, store: &mut PlayStore, id: Ulid) -> Node {
    let loaded = if engine.cached(id.0).is_some() {
        None
    } else {
        store.get_node(id.0)
    };
    let (node, created) = engine.materialize(id.0, loaded);
    if created {
        store.put_node(&node);
    }
    node
}

/// The put flow: merge into the authoritative copy, persist the merged
/// node, and point the key at it.
fn put(engine: &mut Engine, store: &mut PlayStore, key: &str, node: Node, now: u64) -> Node {
    let id = node.id;
    let stored = store.get_node(id.0);
    let (merged, _deferred) = engine.put_merge(node, stored, now);
    store.put_node(&merged);
    store.set_id(key, Some(id));
    merged
}

#[test]
fn getting_a_missing_key_materializes_a_fresh_node() {
    let mut engine = Engine::new();
    let mut store = PlayStore::new();

    let node = get_by_key(&mut engine, &mut store, "missing-key");

    // A fresh empty node, already persisted under its new identifier...
    assert_eq!(node.len(), 0);
    assert_eq!(store.nodes.len(), 1);
    let persisted = store.get_node(node.id.0).unwrap();
    assert_eq!(persisted.id, node.id);
    assert_eq!(persisted.len(), 0);

    // ...while the name-mapping table still has no entry for the key.
    assert!(store.get_id("missing-key").is_none());

    // A second miss on the same key yields a different fresh node.
    let again = get_by_key(&mut engine, &mut store, "missing-key");
    assert_ne!(again.id, node.id);
}

#[test]
fn put_then_get_returns_the_merged_node() {
    let mut engine = Engine::new();
    let mut store = PlayStore::new();
    let now: u64 = 1_000;

    let mut node = get_by_key(&mut engine, &mut store, "users/mary");
    node.set_field("name", Field::new_at(Value::Text(String::from("Mary")), 10));
    node.set_field("age", Field::new_at(Value::Int(32), 10));
    let id = node.id;
    put(&mut engine, &mut store, "users/mary", node, now);

    // The key now resolves, and the fetched node carries the fields.
    assert_eq!(store.get_id("users/mary"), Some(Some(id)));
    let fetched = get_by_key(&mut engine, &mut store, "users/mary");
    assert_eq!(fetched.id, id);
    let name = fetched.get("name").unwrap();
    assert!(value_eq(name.value(), &Value::Text(String::from("Mary"))));
    assert_eq!(name.state(), 10);
}

#[test]
fn put_merges_with_the_stored_node() {
    let mut engine = Engine::new();
    let mut store = PlayStore::new();
    let id = Ulid(21);

    // Seed the store with an older state, unknown to the cache.
    let mut older = Node::with_id(id);
    older.set_field("name", Field::new_at(Value::Text(String::from("Alice")), 10));
    older.set_field("city", Field::new_at(Value::Text(String::from("Rome")), 10));
    store.put_node(&older);

    let mut update = Node::with_id(id);
    update.set_field("name", Field::new_at(Value::Text(String::from("Bob")), 20));
    let merged = put(&mut engine, &mut store, "users/a", update, 1_000);

    let name = merged.get("name").unwrap();
    assert!(value_eq(name.value(), &Value::Text(String::from("Bob"))));
    assert_eq!(name.state(), 20);
    // The field only the stored side had survives the merge.
    assert!(merged.get("city").is_some());
}

#[test]
fn the_cache_is_authoritative_over_the_store() {
    let mut engine = Engine::new();
    let mut store = PlayStore::new();
    let id = Ulid(33);

    let mut first = Node::with_id(id);
    first.set_field("n", Field::new_at(Value::Int(1), 10));
    put(&mut engine, &mut store, "k", first, 1_000);

    // A second put merges against the cached copy.
    let mut second = Node::with_id(id);
    second.set_field("n", Field::new_at(Value::Int(2), 20));
    let merged = put(&mut engine, &mut store, "k", second, 1_000);
    let n = merged.get("n").unwrap();
    assert!(value_eq(n.value(), &Value::Int(2)));
    assert_eq!(n.state(), 20);

    // And the cached copy is what a get returns.
    let fetched = get_by_id(&mut engine, &mut store, id);
    assert!(value_eq(fetched.get("n").unwrap().value(), &Value::Int(2)));
}

#[test]
fn the_flush_drains_exactly_the_dirty_nodes() {
    let mut engine = Engine::new();
    let mut store = PlayStore::new();

    let mut a = Node::with_id(Ulid(1));
    a.set_field("x", Field::new_at(Value::Int(1), 10));
    put(&mut engine, &mut store, "a", a, 1_000);

    let mut b = Node::with_id(Ulid(2));
    b.set_field("y", Field::new_at(Value::Int(2), 10));
    put(&mut engine, &mut store, "b", b, 1_000);

    assert!(engine.dirty_contains(1));
    assert!(engine.dirty_contains(2));

    // One flush tick: snapshot, clear, write.
    let batch = engine.drain_dirty();
    assert_eq!(batch.len(), 2);
    for node in &batch {
        store.put_node(node);
    }
    assert!(!engine.dirty_contains(1));
    assert!(!engine.dirty_contains(2));
    assert!(engine.drain_dirty().is_empty());

    // A write after the drain marks its node dirty again: nothing lost.
    let mut c = Node::with_id(Ulid(1));
    c.set_field("x", Field::new_at(Value::Int(3), 20));
    put(&mut engine, &mut store, "a", c, 1_000);
    assert!(engine.dirty_contains(1));
}

#[test]
fn materialize_prefers_the_cache() {
    let mut engine = Engine::new();
    let id = Ulid(50);

    let mut node = Node::with_id(id);
    node.set_field("v", Field::new_at(Value::Int(9), 10));
    let (first, created) = engine.materialize(id.0, Some(node));
    assert!(!created);
    assert!(value_eq(first.get("v").unwrap().value(), &Value::Int(9)));

    // A later materialize ignores `loaded` in favor of the cached copy.
    let mut other = Node::with_id(id);
    other.set_field("v", Field::new_at(Value::Int(1), 99));
    let (second, created) = engine.materialize(id.0, Some(other));
    assert!(!created);
    assert!(value_eq(second.get("v").unwrap().value(), &Value::Int(9)));
}
