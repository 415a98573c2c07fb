//! The engine core: the authoritative in-memory node cache, dirty
//! tracking for the write-back flush, and the navigation handles over a
//! fetched node.
//!
//! The core is sans-I/O: every store answer comes in as a plain value
//! and every store demand goes out as one, so the merge-then-cache
//! decisions are verified here while an asynchronous shell drives the
//! actual store. A shell shares one core behind a lock; because
//! [`Engine::drain_dirty`] snapshots the dirty nodes and clears their
//! marks in one locked step, a write racing the flush can only land
//! before the snapshot (and is flushed) or after the clear (and marks
//! the node dirty again) — never in between, so no write is lost.

use vstd::pervasive::VecAdditionalExecFns;
use vstd::prelude::*;

use crate::crdt::merged_node_map;
use crate::graph::{Field, FieldEntry, FieldView, Node, NodeView, Value};
use crate::ulid::Ulid;

verus! {

/// The map a cache sequence denotes, keyed by node identifier; later
/// entries shadow earlier ones.
pub open spec fn cache_to_map(s: Seq<NodeView>) -> Map<u128, NodeView>
    decreases s.len(),
{
    if s.len() == 0 {
        Map::empty()
    } else {
        cache_to_map(s.drop_last()).insert(s.last().id, s.last())
    }
}

/// Cached node identifiers are pairwise distinct.
pub open spec fn unique_ids(s: Seq<NodeView>) -> bool {
    forall|i: int, j: int| 0 <= i < j < s.len() ==> s[i].id != s[j].id
}

/// An identifier is in the map exactly when some cached node carries it.
pub proof fn lemma_cache_to_map_dom(s: Seq<NodeView>, id: u128)
    ensures
        cache_to_map(s).dom().contains(id) <==> exists|i: int| 0 <= i < s.len() && s[i].id == id,
    decreases s.len(),
{
    if s.len() > 0 {
        lemma_cache_to_map_dom(s.drop_last(), id);
        if s.last().id == id {
            assert(s[s.len() - 1].id == id);
        } else if cache_to_map(s).dom().contains(id) {
            let i = choose|i: int| 0 <= i < s.drop_last().len() && s.drop_last()[i].id == id;
            assert(s[i].id == id);
        } else if exists|i: int| 0 <= i < s.len() && s[i].id == id {
            let i = choose|i: int| 0 <= i < s.len() && s[i].id == id;
            assert(s.drop_last()[i].id == id);
        }
    }
}

/// With distinct identifiers, each cached node is the map's value at
/// its identifier.
pub proof fn lemma_cache_to_map_index(s: Seq<NodeView>, i: int)
    requires
        unique_ids(s),
        0 <= i < s.len(),
    ensures
        cache_to_map(s).dom().contains(s[i].id),
        cache_to_map(s)[s[i].id] == s[i],
    decreases s.len(),
{
    if i < s.len() - 1 {
        lemma_cache_to_map_index(s.drop_last(), i);
        assert(s.drop_last()[i] == s[i]);
        assert(s[i].id != s.last().id);
    }
}

/// Replacing a cached node in place updates the map at its identifier,
/// provided the replacement keeps the identifier.
pub proof fn lemma_cache_to_map_update(s: Seq<NodeView>, i: int, n: NodeView)
    requires
        unique_ids(s),
        0 <= i < s.len(),
        s[i].id == n.id,
    ensures
        unique_ids(s.update(i, n)),
        cache_to_map(s.update(i, n)) == cache_to_map(s).insert(n.id, n),
    decreases s.len(),
{
    let t = s.update(i, n);
    assert forall|p: int, q: int| 0 <= p < q < t.len() implies t[p].id != t[q].id by {
        assert(s[p].id != s[q].id);
    }
    if i == s.len() - 1 {
        assert(t.drop_last() =~= s.drop_last());
        assert(cache_to_map(t) =~= cache_to_map(s).insert(n.id, n));
    } else {
        lemma_cache_to_map_update(s.drop_last(), i, n);
        assert(t.drop_last() =~= s.drop_last().update(i, n));
        assert(t.last() == s.last());
        assert(s[i].id != s.last().id);
        assert(cache_to_map(t) =~= cache_to_map(s).insert(n.id, n));
    }
}

/// The engine core: the authoritative in-memory copy of every cached
/// node, plus the set of identifiers whose cached state has diverged
/// from the persisted copy and awaits the flush.
pub struct Engine {
    /// The cached nodes, each stored under its own identifier.
    pub cache: Vec<Node>,
    /// The identifiers awaiting persistence, without duplicates.
    pub dirty: Vec<u128>,
}

impl Engine {
    /// The cached nodes as a map from identifier to node.
    pub open spec fn cache_map(self) -> Map<u128, NodeView> {
        cache_to_map(self.cache@.map_values(|n: Node| n@))
    }

    /// The cached node sequence, as views.
    pub open spec fn cache_views(self) -> Seq<NodeView> {
        self.cache@.map_values(|n: Node| n@)
    }

    /// The dirty identifiers, in marking order.
    pub open spec fn dirty_ids(self) -> Seq<u128> {
        self.dirty@
    }

    /// Well-formed: cached nodes are well-formed with pairwise distinct
    /// identifiers, and every dirty identifier names a cached node,
    /// once.
    pub open spec fn wf(self) -> bool {
        &&& unique_ids(self.cache_views())
        &&& forall|i: int| 0 <= i < self.cache_views().len() ==> (#[trigger] self.cache_views()[i]).wf()
        &&& forall|i: int, j: int| 0 <= i < j < self.dirty@.len() ==> self.dirty@[i] != self.dirty@[j]
        &&& forall|i: int|
            0 <= i < self.dirty@.len() ==> self.cache_map().dom().contains(
                #[trigger] self.dirty@[i],
            )
    }

    /// An engine with an empty cache and nothing dirty.
    pub fn new() -> (r: Engine)
        ensures
            r.wf(),
            r.cache_map() == Map::<u128, NodeView>::empty(),
            r.dirty_ids().len() == 0,
    {
        let r = Engine { cache: Vec::new(), dirty: Vec::new() };
        proof {
            assert(r.cache_views() =~= Seq::<NodeView>::empty());
        }
        r
    }

    /// The position of the cached node with this identifier, if any.
    fn position_of(&self, id: u128) -> (r: Option<usize>)
        ensures
            match r {
                Some(i) => i < self.cache_views().len() && self.cache_views()[i as int].id == id,
                None => forall|i: int|
                    0 <= i < self.cache_views().len() ==> self.cache_views()[i].id != id,
            },
    {
        let mut i: usize = 0;
        while i < self.cache.len()
            invariant
                i <= self.cache.len(),
                forall|j: int| 0 <= j < i ==> self.cache_views()[j].id != id,
            decreases self.cache.len() - i,
        {
            if self.cache[i].id.bits() == id {
                return Some(i);
            }
            i = i + 1;
        }
        None
    }

    /// The cached node with this identifier, if any.
    pub fn cached(&self, id: u128) -> (r: Option<&Node>)
        requires
            self.wf(),
        ensures
            match r {
                Some(n) => self.cache_map().dom().contains(id) && n@ == self.cache_map()[id],
                None => !self.cache_map().dom().contains(id),
            },
    {
        let pos = self.position_of(id);
        proof {
            lemma_cache_to_map_dom(self.cache_views(), id);
            if pos is Some {
                lemma_cache_to_map_index(self.cache_views(), pos->0 as int);
            }
        }
        match pos {
            Some(i) => Some(&self.cache[i]),
            None => None,
        }
    }

    /// Materialize the node with this identifier: hand back the cached
    /// copy if one exists; otherwise adopt `loaded` (what the store
    /// returned for the identifier); otherwise synthesize a fresh empty
    /// node — get never fails. The flag reports a synthesized node, so
    /// the shell persists it at once, as a lookup miss demands.
    pub fn materialize(&mut self, id: u128, loaded: Option<Node>) -> (r: (Node, bool))
        requires
            old(self).wf(),
            loaded matches Some(n) ==> n@.wf() && n@.id == id,
        ensures
            final(self).wf(),
            final(self).dirty_ids() == old(self).dirty_ids(),
            r.0@.wf(),
            r.0@.id == id,
            final(self).cache_map() == old(self).cache_map().insert(id, r.0@),
            old(self).cache_map().dom().contains(id) ==> r.0@ == old(self).cache_map()[id]
                && r.1 == false,
            !old(self).cache_map().dom().contains(id) ==> match loaded {
                Some(n) => r.0@ == n@ && r.1 == false,
                None => r.0@ == (NodeView { id, entries: Seq::empty() }) && r.1 == true,
            },
    {
        let pos = self.position_of(id);
        proof {
            lemma_cache_to_map_dom(self.cache_views(), id);
            if pos is Some {
                lemma_cache_to_map_index(self.cache_views(), pos->0 as int);
            }
        }
        match pos {
            Some(i) => {
                let node = self.cache[i].clone();
                proof {
                    assert(old(self).cache_map().dom().contains(id));
                    assert(self.cache_map().insert(id, node@) =~= self.cache_map());
                }
                (node, false)
            },
            None => {
                let (node, created) = match loaded {
                    Some(n) => (n, false),
                    None => (Node::with_id(Ulid::from_bits(id)), true),
                };
                proof {
                    if !(loaded is Some) {
                        assert(node@.entries =~= Seq::<(Seq<char>, FieldView)>::empty());
                    }
                }
                let ghost views_before = self.cache_views();
                let copy = node.clone();
                self.cache.push(node);
                proof {
                    assert(self.cache_views() =~= views_before.push(copy@));
                    assert(self.cache_views().drop_last() =~= views_before);
                    assert forall|p: int, q: int|
                        0 <= p < q < self.cache_views().len() implies self.cache_views()[p].id
                        != self.cache_views()[q].id by {
                        if q < self.cache_views().len() - 1 {
                            assert(views_before[p].id != views_before[q].id);
                        }
                    }
                    assert(forall|i: int|
                        0 <= i < views_before.len() ==> self.cache_views()[i]
                            == views_before[i]);
                }
                (copy, created)
            },
        }
    }

    /// Whether an identifier is marked dirty.
    pub fn dirty_contains(&self, id: u128) -> (r: bool)
        ensures
            r == self.dirty_ids().contains(id),
    {
        let mut i: usize = 0;
        while i < self.dirty.len()
            invariant
                i <= self.dirty.len(),
                forall|j: int| 0 <= j < i ==> self.dirty@[j] != id,
            decreases self.dirty.len() - i,
        {
            if self.dirty[i] == id {
                proof {
                    assert(self.dirty@[i as int] == id);
                }
                return true;
            }
            i = i + 1;
        }
        false
    }

    /// Mark an identifier as awaiting persistence.
    fn mark_dirty(&mut self, id: u128)
        requires
            old(self).wf(),
            old(self).cache_map().dom().contains(id),
        ensures
            final(self).wf(),
            final(self).cache_map() == old(self).cache_map(),
            final(self).dirty_ids() == if old(self).dirty_ids().contains(id) {
                old(self).dirty_ids()
            } else {
                old(self).dirty_ids().push(id)
            },
    {
        if !self.dirty_contains(id) {
            self.dirty.push(id);
        }
    }

    /// Merge `incoming` into the authoritative copy of its node and
    /// mark it dirty: the cached node if one exists, else `stored`
    /// (what the store holds for the identifier), else `incoming`
    /// itself. Returns the merged node, for the shell to persist at
    /// once, and the incoming fields whose merge was deferred for the
    /// shell to re-apply once the clock reaches their timestamps.
    pub fn put_merge(&mut self, incoming: Node, stored: Option<Node>, now: u64) -> (r: (
        Node,
        Vec<FieldEntry>,
    ))
        requires
            old(self).wf(),
            incoming@.wf(),
            stored matches Some(n) ==> n@.wf() && n@.id == incoming@.id,
        ensures
            final(self).wf(),
            r.0@.wf(),
            r.0@.id == incoming@.id,
            final(self).cache_map() == old(self).cache_map().insert(incoming@.id, r.0@),
            final(self).dirty_ids().contains(incoming@.id),
            ({
                let base = if old(self).cache_map().dom().contains(incoming@.id) {
                    Some(old(self).cache_map()[incoming@.id])
                } else if stored is Some {
                    Some(stored->0@)
                } else {
                    None::<NodeView>
                };
                match base {
                    Some(b) => r.0@.map() == merged_node_map(b.map(), incoming@.map(), now)
                        && r.1@.map_values(|e: FieldEntry| e.view_pair())
                        == incoming@.entries.filter(
                        crate::crdt::defers_against(b.map(), now),
                    ),
                    None => r.0@ == incoming@ && r.1@.len() == 0,
                }
            }),
    {
        let id = incoming.id.bits();
        let pos = self.position_of(id);
        proof {
            lemma_cache_to_map_dom(self.cache_views(), id);
            if pos is Some {
                lemma_cache_to_map_index(self.cache_views(), pos->0 as int);
            }
        }
        match pos {
            Some(i) => {
                let mut base = self.cache[i].clone();
                let deferred = incoming.merge_into(&mut base, now);
                let merged = base.clone();
                let ghost views_before = self.cache_views();
                self.cache.set(i, base);
                proof {
                    assert(self.cache_views() =~= views_before.update(i as int, merged@));
                    lemma_cache_to_map_update(views_before, i as int, merged@);
                }
                let ghost dirty_before = self.dirty_ids();
                self.mark_dirty(id);
                proof {
                    if !dirty_before.contains(id) {
                        assert(self.dirty_ids()[dirty_before.len() as int] == id);
                    }
                    assert(self.dirty_ids().contains(id));
                }
                (merged, deferred)
            },
            None => {
                let (merged, deferred) = match stored {
                    Some(mut base) => {
                        let deferred = incoming.merge_into(&mut base, now);
                        (base, deferred)
                    },
                    None => (incoming, Vec::new()),
                };
                let copy = merged.clone();
                let ghost views_before = self.cache_views();
                self.cache.push(merged);
                proof {
                    assert(self.cache_views() =~= views_before.push(copy@));
                    assert(self.cache_views().drop_last() =~= views_before);
                    assert forall|p: int, q: int|
                        0 <= p < q < self.cache_views().len() implies self.cache_views()[p].id
                        != self.cache_views()[q].id by {
                        if q < self.cache_views().len() - 1 {
                            assert(views_before[p].id != views_before[q].id);
                        }
                    }
                    assert(forall|k: int|
                        0 <= k < views_before.len() ==> self.cache_views()[k]
                            == views_before[k]);
                }
                let ghost dirty_before = self.dirty_ids();
                self.mark_dirty(id);
                proof {
                    if !dirty_before.contains(id) {
                        assert(self.dirty_ids()[dirty_before.len() as int] == id);
                    }
                    assert(self.dirty_ids().contains(id));
                }
                (copy, deferred)
            },
        }
    }

    /// Snapshot every dirty node and clear the dirty set, as one step.
    /// The shell holds the core locked across this call, so no write
    /// can land between the snapshot and the clear — the flush race is
    /// closed by construction. The shell then writes each returned node
    /// to the store.
    pub fn drain_dirty(&mut self) -> (r: Vec<Node>)
        requires
            old(self).wf(),
        ensures
            final(self).wf(),
            final(self).cache_map() == old(self).cache_map(),
            final(self).dirty_ids().len() == 0,
            r@.len() == old(self).dirty_ids().len(),
            forall|i: int|
                0 <= i < r@.len() ==> (#[trigger] r@[i]@).id == old(self).dirty_ids()[i]
                    && r@[i]@ == old(self).cache_map()[old(self).dirty_ids()[i]],
    {
        let mut out: Vec<Node> = Vec::new();
        let mut i: usize = 0;
        while i < self.dirty.len()
            invariant
                self.wf(),
                i <= self.dirty.len(),
                self.cache_map() == old(self).cache_map(),
                self.dirty@ == old(self).dirty_ids(),
                out@.len() == i,
                forall|j: int|
                    0 <= j < i ==> (#[trigger] out@[j]@).id == self.dirty@[j] && out@[j]@
                        == self.cache_map()[self.dirty@[j]],
            decreases self.dirty.len() - i,
        {
            let id = self.dirty[i];
            let pos = self.position_of(id);
            proof {
                lemma_cache_to_map_dom(self.cache_views(), id);
                assert(self.cache_map().dom().contains(id));
                if pos is Some {
                    lemma_cache_to_map_index(self.cache_views(), pos->0 as int);
                }
            }
            match pos {
                Some(p) => {
                    out.push(self.cache[p].clone());
                },
                None => {
                    proof {
                        assert(false);
                    }
                },
            }
            i = i + 1;
        }
        self.dirty.clear();
        out
    }
}

/// A read/write handle over one node snapshot. The snapshot is private
/// to the handle: changing it persists nothing until the node is put
/// back through the engine.
pub struct NodeProxy {
    /// The handle's own snapshot of the node.
    pub node: Node,
}

impl NodeProxy {
    /// The snapshot's view.
    pub open spec fn view_node(&self) -> NodeView {
        self.node@
    }

    /// Wrap a fetched node.
    pub fn new(node: Node) -> (r: NodeProxy)
        ensures
            r.view_node() == node@,
    {
        NodeProxy { node }
    }

    /// The snapshot itself.
    pub fn node(&self) -> (r: &Node)
        ensures
            r@ == self.view_node(),
    {
        &self.node
    }

    /// Surrender the snapshot, to put it back through the engine.
    pub fn into_node(self) -> (r: Node)
        ensures
            r@ == self.view_node(),
    {
        self.node
    }

    /// A reference-like view of a field's value, if the field exists.
    pub fn get(&self, key: &str) -> (r: Option<ValueRef<'_>>)
        requires
            self.view_node().wf(),
        ensures
            match r {
                Some(v) => self.view_node().map().dom().contains(key@) && v.value@
                    == self.view_node().map()[key@].value,
                None => !self.view_node().map().dom().contains(key@),
            },
    {
        match self.node.get(key) {
            Some(field) => Some(ValueRef { value: &field.value }),
            None => None,
        }
    }

    /// Set a field to `value`, stamped with the current wall clock.
    /// Only this local snapshot changes.
    pub fn set(&mut self, key: &str, value: Value)
        requires
            old(self).view_node().wf(),
        ensures
            final(self).view_node().wf(),
            final(self).view_node().id == old(self).view_node().id,
            exists|t: u64|
                final(self).view_node().map() == old(self).view_node().map().insert(
                    key@,
                    FieldView { updated_at: t, value: value@ },
                ),
    {
        let field = Field::new(value);
        let ghost t = field@.updated_at;
        let ghost value_view = value@;
        self.node.set_field(key, field);
        proof {
            assert(self.node@.map() == old(self).node@.map().insert(
                key@,
                FieldView { updated_at: t, value: value_view },
            ));
        }
    }

    /// Set a field to `value` at the given moment. Only this local
    /// snapshot changes.
    pub fn set_at(&mut self, key: &str, value: Value, updated_at: u64)
        requires
            old(self).view_node().wf(),
        ensures
            final(self).view_node().wf(),
            final(self).view_node().id == old(self).view_node().id,
            final(self).view_node().map() == old(self).view_node().map().insert(
                key@,
                FieldView { updated_at, value: value@ },
            ),
    {
        self.node.set_field(key, Field::new_at(value, updated_at));
    }
}

/// A reference to one value inside a node snapshot.
pub struct ValueRef<'a> {
    /// The referenced value.
    pub value: &'a Value,
}

impl<'a> ValueRef<'a> {
    /// Clone the referenced value out.
    pub fn owned(&self) -> (r: Value)
        ensures
            r@ == self.value@,
    {
        self.value.clone()
    }

    /// The identifier this value references, when it is a link. A
    /// shell's follow resolves it through the engine — and hands back
    /// an empty node when it cannot, never an error.
    pub fn follow_target(&self) -> (r: Option<Ulid>)
        ensures
            match r {
                Some(id) => self.value@ matches crate::graph::ValueView::Link(b) && b == id.0,
                None => !(self.value@ is Link),
            },
    {
        match self.value {
            Value::Link(id) => Some(*id),
            _ => None,
        }
    }
}

/// How a caller addresses a node: by a human-chosen string key, mapped
/// through the name table, or directly by identifier.
pub enum DbIndex<'a> {
    /// A string key, resolved through the name-mapping table.
    Str(&'a str),
    /// A node identifier, used as it stands.
    Ulid(&'a Ulid),
}

} // verus!
