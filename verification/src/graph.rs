//! Data structures of the graph: values, timestamped fields, and nodes.

use vstd::prelude::*;

use crate::ulid::Ulid;

verus! {

/// The data a field can hold. Exactly one variant at a time; the set is
/// closed and matched exhaustively by the merge and codec logic.
#[derive(Debug)]
pub enum Value {
    /// An empty value.
    Empty,
    /// A boolean value.
    Bool(bool),
    /// A signed integer value.
    Int(i64),
    /// A 64-bit floating-point value, carried as its IEEE-754 bit
    /// pattern so the verified logic can order and store it exactly.
    Float(u64),
    /// A UTF-8 string value.
    Text(String),
    /// A raw byte sequence.
    Binary(Vec<u8>),
    /// A reference to another node by its identifier.
    Link(Ulid),
}

/// The mathematical shape of a [`Value`].
pub enum ValueView {
    Empty,
    Bool(bool),
    Int(i64),
    Float(u64),
    Text(Seq<char>),
    Binary(Seq<u8>),
    Link(u128),
}

impl View for Value {
    type V = ValueView;

    open spec fn view(&self) -> ValueView {
        match self {
            Value::Empty => ValueView::Empty,
            Value::Bool(b) => ValueView::Bool(*b),
            Value::Int(i) => ValueView::Int(*i),
            Value::Float(bits) => ValueView::Float(*bits),
            Value::Text(s) => ValueView::Text(s@),
            Value::Binary(b) => ValueView::Binary(b@),
            Value::Link(id) => ValueView::Link(id.0),
        }
    }
}

impl Clone for Value {
    fn clone(&self) -> (r: Value)
        ensures
            r@ == self@,
    {
        match self {
            Value::Empty => Value::Empty,
            Value::Bool(b) => Value::Bool(*b),
            Value::Int(i) => Value::Int(*i),
            Value::Float(bits) => Value::Float(*bits),
            Value::Text(s) => Value::Text(s.clone()),
            Value::Binary(b) => {
                let r = Value::Binary(b.clone());
                proof {
                    assert(r@->Binary_0 =~= self@->Binary_0);
                }
                r
            },
            Value::Link(id) => Value::Link(*id),
        }
    }
}

/// A named slot's content: the value together with the moment, in
/// milliseconds since the epoch, at which it was last adopted.
///
/// `updated_at` changes only when a merge adopts a newer incoming
/// field; nothing else moves it.
#[derive(Debug)]
pub struct Field {
    /// Milliseconds since the epoch at which the value was adopted.
    pub updated_at: u64,
    /// The value of the field.
    pub value: Value,
}

/// The mathematical shape of a [`Field`].
pub struct FieldView {
    pub updated_at: u64,
    pub value: ValueView,
}

impl View for Field {
    type V = FieldView;

    open spec fn view(&self) -> FieldView {
        FieldView { updated_at: self.updated_at, value: self.value@ }
    }
}

impl Clone for Field {
    fn clone(&self) -> (r: Field)
        ensures
            r@ == self@,
    {
        Field { updated_at: self.updated_at, value: self.value.clone() }
    }
}

/// One named field of a node.
#[derive(Debug)]
pub struct FieldEntry {
    /// The field's name.
    pub name: String,
    /// The field itself.
    pub field: Field,
}

impl FieldEntry {
    /// The mathematical shape of the entry: its name and field.
    pub open spec fn view_pair(&self) -> (Seq<char>, FieldView) {
        (self.name@, self.field@)
    }
}

impl Clone for FieldEntry {
    fn clone(&self) -> (r: FieldEntry)
        ensures
            r.view_pair() == self.view_pair(),
    {
        FieldEntry { name: self.name.clone(), field: self.field.clone() }
    }
}

/// The mathematical shape of a [`Node`]: its identifier and its fields,
/// in storage order.
pub struct NodeView {
    pub id: u128,
    pub entries: Seq<(Seq<char>, FieldView)>,
}

/// Field names are pairwise distinct.
pub open spec fn unique_keys(s: Seq<(Seq<char>, FieldView)>) -> bool {
    forall|i: int, j: int| 0 <= i < j < s.len() ==> s[i].0 != s[j].0
}

/// The map an entry sequence denotes; later entries shadow earlier ones.
pub open spec fn entries_to_map(s: Seq<(Seq<char>, FieldView)>) -> Map<Seq<char>, FieldView>
    decreases s.len(),
{
    if s.len() == 0 {
        Map::empty()
    } else {
        entries_to_map(s.drop_last()).insert(s.last().0, s.last().1)
    }
}

/// A key is in the map exactly when some entry carries it.
pub proof fn lemma_entries_to_map_dom(s: Seq<(Seq<char>, FieldView)>, k: Seq<char>)
    ensures
        entries_to_map(s).dom().contains(k) <==> exists|i: int| 0 <= i < s.len() && s[i].0 == k,
    decreases s.len(),
{
    if s.len() > 0 {
        lemma_entries_to_map_dom(s.drop_last(), k);
        if s.last().0 == k {
            assert(s[s.len() - 1].0 == k);
        } else if entries_to_map(s).dom().contains(k) {
            let i = choose|i: int| 0 <= i < s.drop_last().len() && s.drop_last()[i].0 == k;
            assert(s[i].0 == k);
        } else if exists|i: int| 0 <= i < s.len() && s[i].0 == k {
            let i = choose|i: int| 0 <= i < s.len() && s[i].0 == k;
            assert(s.drop_last()[i].0 == k);
        }
    }
}

/// With distinct keys, each entry is the map's value at its key.
pub proof fn lemma_entries_to_map_index(s: Seq<(Seq<char>, FieldView)>, i: int)
    requires
        unique_keys(s),
        0 <= i < s.len(),
    ensures
        entries_to_map(s).dom().contains(s[i].0),
        entries_to_map(s)[s[i].0] == s[i].1,
    decreases s.len(),
{
    if i < s.len() - 1 {
        lemma_entries_to_map_index(s.drop_last(), i);
        assert(s.drop_last()[i] == s[i]);
        assert(s[i].0 != s.last().0);
    }
}

impl NodeView {
    /// The fields as a map from name to field.
    pub open spec fn map(self) -> Map<Seq<char>, FieldView> {
        entries_to_map(self.entries)
    }

    /// Well-formed: field names are pairwise distinct.
    pub open spec fn wf(self) -> bool {
        unique_keys(self.entries)
    }
}

/// A graph vertex: an identifier plus a collection of named,
/// independently timestamped fields with pairwise distinct names.
///
/// A node with no fields is valid; a lookup miss materializes one.
#[derive(Debug)]
pub struct Node {
    /// The node's universally unique identifier, immutable for the
    /// node's lifetime.
    pub id: Ulid,
    /// The fields, in storage order. Names must stay pairwise distinct;
    /// every constructor and mutator of this crate keeps them so.
    pub fields: Vec<FieldEntry>,
}

impl View for Node {
    type V = NodeView;

    open spec fn view(&self) -> NodeView {
        NodeView {
            id: self.id.0,
            entries: self.fields@.map_values(|e: FieldEntry| e.view_pair()),
        }
    }
}

impl Clone for Node {
    fn clone(&self) -> (r: Node)
        ensures
            r@ == self@,
    {
        let fields = self.fields.clone();
        let r = Node { id: self.id, fields };
        proof {
            assert forall|i: int| 0 <= i < r@.entries.len() implies r@.entries[i]
                == self@.entries[i] by {
                assert(cloned::<FieldEntry>(self.fields@[i], r.fields@[i]));
            }
            assert(r@.entries =~= self@.entries);
        }
        r
    }
}

impl Default for Node {
    /// A fresh, empty node with a newly drawn identifier.
    fn default() -> (r: Node)
        ensures
            r@.entries.len() == 0,
            r@.wf(),
    {
        Node::new()
    }
}

impl Node {
    /// A fresh, empty node with a newly drawn identifier.
    pub fn new() -> (r: Node)
        ensures
            r@.entries.len() == 0,
            r@.wf(),
    {
        Node { id: Ulid::new(), fields: Vec::new() }
    }

    /// An empty node with the given identifier.
    pub fn with_id(id: Ulid) -> (r: Node)
        ensures
            r@.id == id.0,
            r@.entries.len() == 0,
            r@.wf(),
    {
        Node { id, fields: Vec::new() }
    }

    /// The fields, in storage order.
    pub fn entries(&self) -> (r: &Vec<FieldEntry>)
        ensures
            r@.map_values(|e: FieldEntry| e.view_pair()) == self@.entries,
    {
        &self.fields
    }

    /// The number of fields.
    pub fn len(&self) -> (r: usize)
        ensures
            r == self@.entries.len(),
    {
        self.fields.len()
    }

    /// The position of the field with this name, if one exists.
    pub(crate) fn index_of(&self, name: &String) -> (r: Option<usize>)
        ensures
            match r {
                Some(i) => i < self@.entries.len() && self@.entries[i as int].0 == name@,
                None => forall|i: int|
                    0 <= i < self@.entries.len() ==> self@.entries[i].0 != name@,
            },
    {
        let mut i: usize = 0;
        while i < self.fields.len()
            invariant
                i <= self.fields.len(),
                forall|j: int| 0 <= j < i ==> self@.entries[j].0 != name@,
            decreases self.fields.len() - i,
        {
            if self.fields[i].name == *name {
                return Some(i);
            }
            i = i + 1;
        }
        None
    }

    /// The field with this name, if the node has one.
    pub fn get(&self, name: &str) -> (r: Option<&Field>)
        requires
            self@.wf(),
        ensures
            match r {
                Some(f) => self@.map().dom().contains(name@) && f@ == self@.map()[name@],
                None => !self@.map().dom().contains(name@),
            },
    {
        let owned = String::from_str(name);
        let idx = self.index_of(&owned);
        proof {
            lemma_entries_to_map_dom(self@.entries, name@);
            if idx is Some {
                lemma_entries_to_map_index(self@.entries, idx->0 as int);
            }
        }
        match idx {
            Some(i) => Some(&self.fields[i].field),
            None => None,
        }
    }

    /// Insert the field under this name, replacing any previous field
    /// with the same name.
    pub fn set_field(&mut self, name: &str, field: Field)
        requires
            old(self)@.wf(),
        ensures
            final(self)@.wf(),
            final(self)@.id == old(self)@.id,
            final(self)@.map() == old(self)@.map().insert(name@, field@),
            final(self)@.entries.len() <= old(self)@.entries.len() + 1,
    {
        let owned = String::from_str(name);
        let idx = self.index_of(&owned);
        match idx {
            Some(i) => {
                let ghost old_entries = self@.entries;
                self.fields.remove(i);
                self.fields.insert(i, FieldEntry { name: owned, field });
                proof {
                    assert(self@.entries =~= old_entries.update(
                        i as int,
                        (name@, field@),
                    ));
                    lemma_entries_map_update(old_entries, i as int, (name@, field@));
                }
            },
            None => {
                let ghost old_entries = self@.entries;
                self.fields.push(FieldEntry { name: owned, field });
                proof {
                    assert(self@.entries =~= old_entries.push((name@, field@)));
                    assert(self@.entries.drop_last() =~= old_entries);
                }
            },
        }
    }
}

/// Updating an entry in place updates the map at its key, provided the
/// keys are distinct and the update keeps the key.
pub proof fn lemma_entries_map_update(
    s: Seq<(Seq<char>, FieldView)>,
    i: int,
    e: (Seq<char>, FieldView),
)
    requires
        unique_keys(s),
        0 <= i < s.len(),
        s[i].0 == e.0,
    ensures
        unique_keys(s.update(i, e)),
        entries_to_map(s.update(i, e)) == entries_to_map(s).insert(e.0, e.1),
    decreases s.len(),
{
    let t = s.update(i, e);
    assert forall|p: int, q: int| 0 <= p < q < t.len() implies t[p].0 != t[q].0 by {
        assert(s[p].0 != s[q].0);
    }
    if i == s.len() - 1 {
        assert(t.drop_last() =~= s.drop_last());
        assert(entries_to_map(t) =~= entries_to_map(s).insert(e.0, e.1));
    } else {
        lemma_entries_map_update(s.drop_last(), i, e);
        assert(t.drop_last() =~= s.drop_last().update(i, e));
        assert(t.last() == s.last());
        assert(entries_to_map(t) == entries_to_map(s.drop_last().update(i, e)).insert(
            s.last().0,
            s.last().1,
        ));
        assert(s[i].0 != s.last().0);
        assert(entries_to_map(t) =~= entries_to_map(s).insert(e.0, e.1));
    }
}

} // verus!
