//! The wire-interchange shape of a node, for interop with the graph-sync
//! ecosystem this store is compatible with: a metadata member holding
//! the identifier and each field's timestamp, beside the flattened field
//! values. Binary data travels as a marked base64 string; a reference
//! travels as an object with a single identifier member. This module
//! holds the verified structural layer — building the shape from a node
//! and rebuilding the node from the shape — while a thin unverified
//! shell renders the shape as JSON text and parses it back, including
//! the floating-point scalars the verified core carries as bit patterns.

use vstd::prelude::*;

use crate::graph::{Field, FieldView, Node, NodeView, Value, ValueView};
use crate::store::StoreError;
use crate::ulid::Ulid;

verus! {

/// What `base64::encode` returns for the given bytes: standard
/// alphabet, padded. The result depends on the bytes alone.
pub uninterp spec fn base64_text(data: Seq<u8>) -> Seq<char>;

/// What `base64::decode` accepts for the given text: the bytes, when
/// the text is base64 at all. The result depends on the text alone.
pub uninterp spec fn base64_parse(s: Seq<char>) -> Option<Seq<u8>>;

/// Relies on `base64::encode` with the standard, padded alphabet.
#[verifier::external_body]
fn base64_encode(data: &Vec<u8>) -> (r: String)
    ensures
        r@ == base64_text(data@),
{
    base64::encode(data)
}

/// Relies on `base64::decode` with the standard alphabet: it returns
/// bytes exactly when the text is base64, and decoding what
/// `base64::encode` produced returns the original bytes.
#[verifier::external_body]
fn base64_decode(s: &str) -> (r: Option<Vec<u8>>)
    ensures
        match r {
            Option::Some(v) => base64_parse(s@) == Some(v@) && (forall|b: Seq<u8>|
                s@ == base64_text(b) ==> v@ == b),
            Option::None => base64_parse(s@) is None && (forall|b: Seq<u8>|
                s@ != base64_text(b)),
        },
{
    base64::decode(s).ok()
}

/// A raw byte payload as it travels in a string scalar.
#[derive(Debug)]
pub struct BinaryData(pub Vec<u8>);

impl BinaryData {
    /// Render the bytes as base64 text.
    pub fn to_base64(&self) -> (r: String)
        ensures
            r@ == base64_text(self.0@),
    {
        base64_encode(&self.0)
    }

    /// Read bytes back from base64 text; rejects text that is not
    /// base64.
    pub fn from_base64(s: &str) -> (r: Result<BinaryData, StoreError>)
        ensures
            match r {
                Result::Ok(b) => base64_parse(s@) == Some(b.0@),
                Result::Err(e) => base64_parse(s@) is None && e
                    == StoreError::ReadStringAsBinary,
            },
            forall|bytes: Seq<u8>| s@ == base64_text(bytes) ==> (r matches Ok(b2) && b2.0@
                == bytes),
    {
        match base64_decode(s) {
            Some(v) => Ok(BinaryData(v)),
            None => Err(StoreError::ReadStringAsBinary),
        }
    }
}

/// The marker that distinguishes a binary payload from ordinary text
/// inside a string scalar.
pub open spec fn binary_marker() -> Seq<char> {
    "$base64$"@
}

/// One field value in the wire shape. Scalars stand as themselves — the
/// float still as its bit pattern, rendered only at the text layer —
/// while binary data and references keep their typed form until the
/// text layer wraps them.
#[derive(Debug)]
pub enum JsonValue {
    /// The empty value: a JSON null.
    Null,
    /// A boolean scalar.
    Bool(bool),
    /// An integer scalar.
    Int(i64),
    /// A floating-point scalar, as its IEEE-754 bit pattern.
    Float(u64),
    /// A string scalar.
    Text(String),
    /// A binary payload: travels as the marker followed by base64 text.
    Binary(BinaryData),
    /// A reference: travels as an object with one identifier member.
    Link(Ulid),
}

impl JsonValue {
    /// The value this wire shape stands for.
    pub open spec fn view_value(&self) -> ValueView {
        match self {
            JsonValue::Null => ValueView::Empty,
            JsonValue::Bool(b) => ValueView::Bool(*b),
            JsonValue::Int(i) => ValueView::Int(*i),
            JsonValue::Float(bits) => ValueView::Float(*bits),
            JsonValue::Text(s) => ValueView::Text(s@),
            JsonValue::Binary(d) => ValueView::Binary(d.0@),
            JsonValue::Link(id) => ValueView::Link(id.0),
        }
    }

    /// Wrap a value in its wire shape.
    pub fn from_value(v: &Value) -> (r: JsonValue)
        ensures
            r.view_value() == v@,
    {
        match v {
            Value::Empty => JsonValue::Null,
            Value::Bool(b) => JsonValue::Bool(*b),
            Value::Int(i) => JsonValue::Int(*i),
            Value::Float(bits) => JsonValue::Float(*bits),
            Value::Text(s) => JsonValue::Text(s.clone()),
            Value::Binary(b) => {
                let r = JsonValue::Binary(BinaryData(b.clone()));
                proof {
                    assert(r.view_value()->Binary_0 =~= v@->Binary_0);
                }
                r
            },
            Value::Link(id) => JsonValue::Link(*id),
        }
    }

    /// Unwrap the wire shape back into the value it stands for.
    pub fn into_value(self) -> (r: Value)
        ensures
            r@ == self.view_value(),
    {
        match self {
            JsonValue::Null => Value::Empty,
            JsonValue::Bool(b) => Value::Bool(b),
            JsonValue::Int(i) => Value::Int(i),
            JsonValue::Float(bits) => Value::Float(bits),
            JsonValue::Text(s) => Value::Text(s),
            JsonValue::Binary(d) => Value::Binary(d.0),
            JsonValue::Link(id) => Value::Link(id),
        }
    }
}

/// One flattened field of the wire shape.
pub struct JsonField {
    /// The field's name.
    pub name: String,
    /// The field's value, in wire shape.
    pub value: JsonValue,
}

/// One entry of the metadata timestamp map.
pub struct FieldState {
    /// The field's name.
    pub name: String,
    /// The field's timestamp, milliseconds since the epoch.
    pub updated_at: u64,
}

/// The metadata member of the wire shape: the identifier and the map
/// from field name to timestamp.
pub struct JsonNodeMeta {
    /// The node's identifier.
    pub id: Ulid,
    /// Each field's timestamp.
    pub field_states: Vec<FieldState>,
}

/// A whole node in wire shape: the metadata member beside the
/// flattened fields.
pub struct JsonNode {
    /// The metadata member.
    pub meta: JsonNodeMeta,
    /// The flattened fields.
    pub fields: Vec<JsonField>,
}

/// The mathematical shape of a [`JsonNode`].
pub struct JsonNodeView {
    pub id: u128,
    pub states: Seq<(Seq<char>, u64)>,
    pub fields: Seq<(Seq<char>, ValueView)>,
}

impl JsonNode {
    /// The mathematical shape.
    pub open spec fn view_json(&self) -> JsonNodeView {
        JsonNodeView {
            id: self.meta.id.0,
            states: self.meta.field_states@.map_values(
                |s: FieldState| (s.name@, s.updated_at),
            ),
            fields: self.fields@.map_values(|f: JsonField| (f.name@, f.value.view_value())),
        }
    }
}

/// The wire shape a node takes: the timestamps split into the metadata
/// member, the values flattened beside it, both in storage order.
pub open spec fn json_of_node(n: NodeView) -> JsonNodeView {
    JsonNodeView {
        id: n.id,
        states: n.entries.map_values(|e: (Seq<char>, FieldView)| (e.0, e.1.updated_at)),
        fields: n.entries.map_values(|e: (Seq<char>, FieldView)| (e.0, e.1.value)),
    }
}

/// The timestamp the metadata member holds for a name: the first entry
/// with that name.
pub open spec fn find_state(states: Seq<(Seq<char>, u64)>, name: Seq<char>) -> Option<u64>
    decreases states.len(),
{
    if states.len() == 0 {
        Option::None
    } else if states[0].0 == name {
        Option::Some(states[0].1)
    } else {
        find_state(states.drop_first(), name)
    }
}

/// Field names of a wire shape are pairwise distinct.
pub open spec fn unique_json_names(fields: Seq<(Seq<char>, ValueView)>) -> bool {
    forall|i: int, j: int| 0 <= i < j < fields.len() ==> fields[i].0 != fields[j].0
}

/// The node a wire shape stands for: each flattened field rejoined with
/// its timestamp. Shapes with a duplicated field name or a field whose
/// timestamp the metadata member lacks stand for no node and are
/// rejected.
pub open spec fn node_of_json(j: JsonNodeView) -> Option<NodeView> {
    if unique_json_names(j.fields) && (forall|i: int|
        0 <= i < j.fields.len() ==> find_state(j.states, #[trigger] j.fields[i].0) is Some) {
        Option::Some(
            NodeView {
                id: j.id,
                entries: Seq::new(
                    j.fields.len(),
                    |i: int|
                        (
                            j.fields[i].0,
                            FieldView {
                                updated_at: find_state(j.states, j.fields[i].0)->0,
                                value: j.fields[i].1,
                            },
                        ),
                ),
            },
        )
    } else {
        Option::None
    }
}

/// In a state list with distinct names, each entry is found exactly.
proof fn lemma_find_state_unique(states: Seq<(Seq<char>, u64)>, i: int)
    requires
        0 <= i < states.len(),
        forall|p: int, q: int| 0 <= p < q < states.len() ==> states[p].0 != states[q].0,
    ensures
        find_state(states, states[i].0) == Option::Some(states[i].1),
    decreases i,
{
    if i > 0 {
        assert(states[0].0 != states[i].0);
        lemma_find_state_unique(states.drop_first(), i - 1);
        assert(states.drop_first()[i - 1] == states[i]);
    }
}

/// Wire-shape round trip: a well-formed node rebuilt from its own wire
/// shape is reproduced exactly — identifier, field names, field values,
/// and field timestamps.
pub proof fn lemma_wire_round_trip(n: NodeView)
    requires
        n.wf(),
    ensures
        node_of_json(json_of_node(n)) == Option::Some(n),
{
    let j = json_of_node(n);
    assert forall|i: int| 0 <= i < j.fields.len() implies find_state(
        j.states,
        #[trigger] j.fields[i].0,
    ) == Option::Some(n.entries[i].1.updated_at) by {
        assert forall|p: int, q: int| 0 <= p < q < j.states.len() implies j.states[p].0
            != j.states[q].0 by {
            assert(n.entries[p].0 != n.entries[q].0);
        }
        lemma_find_state_unique(j.states, i);
    }
    assert(unique_json_names(j.fields));
    let rebuilt = node_of_json(j)->0;
    assert(rebuilt.entries =~= n.entries);
}

impl JsonNode {
    /// Build the wire shape of a node.
    pub fn from_node(node: &Node) -> (r: JsonNode)
        ensures
            r.view_json() == json_of_node(node@),
    {
        let mut field_states: Vec<FieldState> = Vec::new();
        let mut fields: Vec<JsonField> = Vec::new();
        let mut i: usize = 0;
        while i < node.fields.len()
            invariant
                i <= node.fields.len(),
                field_states@.map_values(|s: FieldState| (s.name@, s.updated_at))
                    =~= json_of_node(node@).states.take(i as int),
                fields@.map_values(|f: JsonField| (f.name@, f.value.view_value()))
                    =~= json_of_node(node@).fields.take(i as int),
            decreases node.fields.len() - i,
        {
            let ghost fs_before = field_states@;
            let ghost fl_before = fields@;
            let entry = &node.fields[i];
            let st = FieldState { name: entry.name.clone(), updated_at: entry.field.updated_at };
            let ghost st_pair = (st.name@, st.updated_at);
            field_states.push(st);
            let jf = JsonField {
                name: entry.name.clone(),
                value: JsonValue::from_value(&entry.field.value),
            };
            let ghost jf_pair = (jf.name@, jf.value.view_value());
            fields.push(jf);
            proof {
                assert(node@.entries[i as int] == node.fields@[i as int].view_pair());
                assert(st_pair == json_of_node(node@).states[i as int]);
                assert(jf_pair == json_of_node(node@).fields[i as int]);
                assert(field_states@.map_values(|s: FieldState| (s.name@, s.updated_at))
                    =~= fs_before.map_values(|s: FieldState| (s.name@, s.updated_at)).push(
                    st_pair,
                ));
                assert(fields@.map_values(|f: JsonField| (f.name@, f.value.view_value()))
                    =~= fl_before.map_values(
                    |f: JsonField| (f.name@, f.value.view_value()),
                ).push(jf_pair));
                assert(field_states@.map_values(|s: FieldState| (s.name@, s.updated_at))
                    =~= json_of_node(node@).states.take(i + 1));
                assert(fields@.map_values(|f: JsonField| (f.name@, f.value.view_value()))
                    =~= json_of_node(node@).fields.take(i + 1));
            }
            i = i + 1;
        }
        let r = JsonNode { meta: JsonNodeMeta { id: node.id, field_states }, fields };
        proof {
            assert(json_of_node(node@).states.take(i as int) =~= json_of_node(node@).states);
            assert(json_of_node(node@).fields.take(i as int) =~= json_of_node(node@).fields);
        }
        r
    }

    /// Rebuild the node a wire shape stands for. Rejects, as
    /// unrecognized data, a shape with a duplicated field name or a
    /// field whose timestamp the metadata member lacks.
    pub fn into_node(self) -> (r: Result<Node, StoreError>)
        ensures
            match r {
                Result::Ok(node) => node@.wf() && node_of_json(self.view_json()) == Option::Some(
                    node@,
                ),
                Result::Err(e) => node_of_json(self.view_json()) is None && e
                    == StoreError::UnrecognizedData,
            },
    {
        let ghost j = self.view_json();
        let JsonNode { meta, fields } = self;
        let mut node = Node::with_id(meta.id);
        let mut i: usize = 0;
        while i < fields.len()
            invariant
                i <= fields.len(),
                j == self.view_json(),
                j.fields == fields@.map_values(|f: JsonField| (f.name@, f.value.view_value())),
                j.states == meta.field_states@.map_values(
                    |s: FieldState| (s.name@, s.updated_at),
                ),
                node@.id == j.id,
                node@.wf(),
                node@.entries.len() == i,
                forall|p: int, q: int| 0 <= p < q < i ==> j.fields[p].0 != j.fields[q].0,
                forall|k: int|
                    0 <= k < i ==> find_state(j.states, #[trigger] j.fields[k].0) is Some,
                forall|k: int|
                    0 <= k < i ==> #[trigger] node@.entries[k] == (
                        j.fields[k].0,
                        FieldView {
                            updated_at: find_state(j.states, j.fields[k].0)->0,
                            value: j.fields[k].1,
                        },
                    ),
            decreases fields.len() - i,
        {
            let f = &fields[i];
            proof {
                assert(j.fields[i as int] == (f.name@, f.value.view_value()));
            }
            let dup = node.index_of(&f.name);
            if dup.is_some() {
                proof {
                    let p = dup->0 as int;
                    assert(node@.entries[p].0 == f.name@);
                    assert(j.fields[p].0 == j.fields[i as int].0);
                    assert(!unique_json_names(j.fields));
                    assert(node_of_json(j) is None);
                    assert(j == self.view_json());
                }
                return Err(StoreError::UnrecognizedData);
            }
            let ts = match find_state_exec(&meta.field_states, &f.name) {
                Some(t) => t,
                None => {
                    proof {
                        assert(find_state(j.states, j.fields[i as int].0) is None);
                        assert(node_of_json(j) is None);
                        assert(j == self.view_json());
                    }
                    return Err(StoreError::UnrecognizedData);
                },
            };
            let ghost entries_before = node@.entries;
            node.fields.push(
                crate::graph::FieldEntry {
                    name: f.name.clone(),
                    field: Field { updated_at: ts, value: f.value.clone_value() },
                },
            );
            proof {
                assert(node@.entries =~= entries_before.push(
                    (
                        j.fields[i as int].0,
                        FieldView {
                            updated_at: find_state(j.states, j.fields[i as int].0)->0,
                            value: j.fields[i as int].1,
                        },
                    ),
                ));
                assert forall|p: int, q: int|
                    0 <= p < q < node@.entries.len() implies node@.entries[p].0
                    != node@.entries[q].0 by {
                    if q < node@.entries.len() - 1 {
                        assert(entries_before[p].0 != entries_before[q].0);
                    } else {
                        assert(entries_before[p].0 != f.name@);
                    }
                }
                assert forall|p: int| 0 <= p < i implies j.fields[p].0 != j.fields[i as int].0 by {
                    assert(entries_before[p].0 == j.fields[p].0);
                    assert(entries_before[p].0 != f.name@);
                }
            }
            i = i + 1;
        }
        proof {
            assert(unique_json_names(j.fields)) by {
                assert forall|p: int, q: int|
                    0 <= p < q < j.fields.len() implies j.fields[p].0 != j.fields[q].0 by {
                    assert(node@.entries[p].0 == j.fields[p].0);
                    assert(node@.entries[q].0 == j.fields[q].0);
                }
            }
            assert(node@.entries =~= node_of_json(j)->0.entries);
        }
        Ok(node)
    }
}

impl JsonValue {
    /// A copy of the value this wire shape stands for.
    pub fn clone_value(&self) -> (r: Value)
        ensures
            r@ == self.view_value(),
    {
        match self {
            JsonValue::Null => Value::Empty,
            JsonValue::Bool(b) => Value::Bool(*b),
            JsonValue::Int(i) => Value::Int(*i),
            JsonValue::Float(bits) => Value::Float(*bits),
            JsonValue::Text(s) => Value::Text(s.clone()),
            JsonValue::Binary(d) => {
                let r = Value::Binary(d.0.clone());
                proof {
                    assert(r@->Binary_0 =~= self.view_value()->Binary_0);
                }
                r
            },
            JsonValue::Link(id) => Value::Link(*id),
        }
    }
}

/// Render a binary payload as its string scalar: the marker followed
/// by base64 text.
pub fn binary_to_scalar(data: &BinaryData) -> (r: String)
    ensures
        r@ == binary_marker() + base64_text(data.0@),
{
    let mut s = String::from_str("$base64$");
    let encoded = data.to_base64();
    s.append(encoded.as_str());
    s
}

/// Classify a string scalar as the wire decoder does: one bearing the
/// binary marker yields the decoded bytes; any other is ordinary text.
/// Marked text whose remainder is not base64 is rejected.
pub fn scalar_to_value(s: String) -> (r: Result<JsonValue, StoreError>)
    ensures
        match r {
            Result::Ok(jv) => if s@.len() >= 8 && s@.take(8) == binary_marker() {
                jv matches JsonValue::Binary(b) && base64_parse(s@.skip(8)) == Some(b.0@)
            } else {
                jv matches JsonValue::Text(t) && t@ == s@
            },
            Result::Err(e) => s@.len() >= 8 && s@.take(8) == binary_marker() && base64_parse(
                s@.skip(8),
            ) is None && e == StoreError::ReadStringAsBinary,
        },
{
    proof {
        reveal_strlit("$base64$");
    }
    let marker = "$base64$";
    proof {
        assert(marker@ == binary_marker());
    }
    let slen = s.as_str().unicode_len();
    let mut marked = slen >= 8;
    let mut k: usize = 0;
    while k < 8 && marked
        invariant
            k <= 8,
            slen == s@.len(),
            marker@ == binary_marker(),
            binary_marker().len() == 8,
            marked ==> slen >= 8 && forall|j: int| 0 <= j < k ==> s@[j] == binary_marker()[j],
            !marked ==> !(s@.len() >= 8 && s@.take(8) == binary_marker()),
        decreases 8 - k,
    {
        let c = s.as_str().get_char(k);
        let mc = marker.get_char(k);
        if c != mc {
            proof {
                if s@.len() >= 8 {
                    assert(s@.take(8)[k as int] != binary_marker()[k as int]);
                }
            }
            marked = false;
        }
        k = k + 1;
    }
    if marked {
        proof {
            assert(s@.take(8) =~= binary_marker());
        }
        let rest = s.as_str().substring_char(8, slen);
        proof {
            assert(rest@ =~= s@.skip(8));
        }
        match base64_decode(rest) {
            Some(v) => Ok(JsonValue::Binary(BinaryData(v))),
            None => Err(StoreError::ReadStringAsBinary),
        }
    } else {
        Ok(JsonValue::Text(s))
    }
}

/// If no state among the first `i` matches, the search is decided past
/// them.
proof fn lemma_find_state_skip(states: Seq<(Seq<char>, u64)>, name: Seq<char>, i: int)
    requires
        0 <= i <= states.len(),
        forall|j: int| 0 <= j < i ==> states[j].0 != name,
    ensures
        find_state(states, name) == find_state(states.skip(i), name),
    decreases i,
{
    if i > 0 {
        lemma_find_state_skip(states, name, i - 1);
        assert(states.skip(i - 1).len() > 0);
        assert(states.skip(i - 1)[0] == states[i - 1]);
        assert(states.skip(i - 1).drop_first() =~= states.skip(i));
    } else {
        assert(states.skip(0) =~= states);
    }
}

/// Find the timestamp the metadata member holds for a name.
fn find_state_exec(states: &Vec<FieldState>, name: &String) -> (r: Option<u64>)
    ensures
        r == find_state(
            states@.map_values(|s: FieldState| (s.name@, s.updated_at)),
            name@,
        ),
{
    let ghost sview = states@.map_values(|s: FieldState| (s.name@, s.updated_at));
    let mut i: usize = 0;
    while i < states.len()
        invariant
            i <= states.len(),
            sview == states@.map_values(|s: FieldState| (s.name@, s.updated_at)),
            forall|j: int| 0 <= j < i ==> sview[j].0 != name@,
        decreases states.len() - i,
    {
        proof {
            lemma_find_state_skip(sview, name@, i as int);
            assert(sview.skip(i as int)[0] == sview[i as int]);
            assert(sview.skip(i as int).drop_first() =~= sview.skip(i + 1));
        }
        if states[i].name == *name {
            return Some(states[i].updated_at);
        }
        i = i + 1;
    }
    proof {
        lemma_find_state_skip(sview, name@, i as int);
        assert(sview.skip(i as int).len() == 0);
    }
    None
}

} // verus!
