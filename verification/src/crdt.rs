//! Conflict resolution: the timestamp-plus-lexical-tie-break merge that
//! makes concurrent updates from different replicas converge.

use core::cmp::Ordering;
use vstd::prelude::*;

use crate::graph::{Field, FieldEntry, FieldView, Node, Value, ValueView};
use crate::graph::{entries_to_map, lemma_entries_map_update, lemma_entries_to_map_dom,
    lemma_entries_to_map_index, unique_keys};
use crate::FUTURE_UPDATE_THRESHOLD_MS;

verus! {

/// Relies on `std::time::SystemTime`: reads the wall clock as
/// milliseconds since the epoch. The result depends on the clock alone,
/// so nothing is promised of it; a clock before the epoch reads as zero.
#[verifier::external_body]
pub fn now_millis() -> u64 {
    std::time::SystemTime::now()
        .duration_since(std::time::SystemTime::UNIX_EPOCH)
        .map(|d| d.as_millis() as u64)
        .unwrap_or(0)
}

/// Rank of a value's variant in the cross-variant order.
pub open spec fn rank(v: ValueView) -> int {
    match v {
        ValueView::Empty => 0,
        ValueView::Bool(_) => 1,
        ValueView::Int(_) => 2,
        ValueView::Float(_) => 3,
        ValueView::Text(_) => 4,
        ValueView::Binary(_) => 5,
        ValueView::Link(_) => 6,
    }
}

/// Ascending order on booleans: `false` below `true`.
pub open spec fn bool_cmp(x: bool, y: bool) -> Ordering {
    if x == y {
        Ordering::Equal
    } else if y {
        Ordering::Less
    } else {
        Ordering::Greater
    }
}

pub open spec fn i64_cmp(x: i64, y: i64) -> Ordering {
    if x < y {
        Ordering::Less
    } else if x > y {
        Ordering::Greater
    } else {
        Ordering::Equal
    }
}

pub open spec fn u128_cmp(x: u128, y: u128) -> Ordering {
    if x < y {
        Ordering::Less
    } else if x > y {
        Ordering::Greater
    } else {
        Ordering::Equal
    }
}

/// Whether a 64-bit IEEE-754 bit pattern denotes a not-a-number value.
pub open spec fn is_nan_bits(bits: u64) -> bool {
    bits & 0x7FF0_0000_0000_0000 == 0x7FF0_0000_0000_0000 && bits & 0x000F_FFFF_FFFF_FFFF != 0
}

/// An order-preserving key for 64-bit float bit patterns: every
/// not-a-number pattern maps to the lowest key; negative values are
/// flipped below the non-negative ones.
pub open spec fn float_order_key(bits: u64) -> u64 {
    if is_nan_bits(bits) {
        0
    } else if bits >= 0x8000_0000_0000_0000 {
        !bits
    } else {
        bits | 0x8000_0000_0000_0000
    }
}

/// Numeric order on float bit patterns, with every not-a-number pattern
/// sorted lowest. Patterns whose numeric values tie (the two zeros, or
/// two not-a-number payloads) are ordered by their raw bits, so that
/// `Equal` means identical bits and a tie-break never depends on which
/// side was "existing" — the convergence guarantee needs a total order.
pub open spec fn float_cmp(x: u64, y: u64) -> Ordering {
    if float_order_key(x) < float_order_key(y) {
        Ordering::Less
    } else if float_order_key(x) > float_order_key(y) {
        Ordering::Greater
    } else if x < y {
        Ordering::Less
    } else if x > y {
        Ordering::Greater
    } else {
        Ordering::Equal
    }
}

/// Lexicographic order on character sequences by code point.
pub open spec fn seq_char_cmp(a: Seq<char>, b: Seq<char>) -> Ordering
    decreases a.len(),
{
    if a.len() == 0 && b.len() == 0 {
        Ordering::Equal
    } else if a.len() == 0 {
        Ordering::Less
    } else if b.len() == 0 {
        Ordering::Greater
    } else if (a[0] as u32) < (b[0] as u32) {
        Ordering::Less
    } else if (a[0] as u32) > (b[0] as u32) {
        Ordering::Greater
    } else {
        seq_char_cmp(a.drop_first(), b.drop_first())
    }
}

/// Lexicographic order on byte sequences.
pub open spec fn seq_u8_cmp(a: Seq<u8>, b: Seq<u8>) -> Ordering
    decreases a.len(),
{
    if a.len() == 0 && b.len() == 0 {
        Ordering::Equal
    } else if a.len() == 0 {
        Ordering::Less
    } else if b.len() == 0 {
        Ordering::Greater
    } else if a[0] < b[0] {
        Ordering::Less
    } else if a[0] > b[0] {
        Ordering::Greater
    } else {
        seq_u8_cmp(a.drop_first(), b.drop_first())
    }
}

/// The lexical comparison the merge tie-breaks with. The underlying
/// ascending order puts variants in rank order and, within a variant,
/// orders content naturally — not-a-number floats lowest, numeric float
/// ties refined by raw bits so the order is total. The comparison
/// returns `Greater` exactly when the *other* value stands higher in
/// that order, so a merge, which adopts the incoming value on
/// `Greater`, always keeps whichever value stands higher: the lexically
/// dominant one. On booleans this realizes the deliberate table of the
/// protocol this store is wire-compatible with — `(true, true)` and
/// `(false, false)` tie, `(true, false)` is `Less`, `(false, true)` is
/// `Greater` — so `true` survives a tie whichever side holds it.
pub open spec fn lexical_cmp_spec(a: ValueView, b: ValueView) -> Ordering {
    match (a, b) {
        (ValueView::Empty, ValueView::Empty) => Ordering::Equal,
        (ValueView::Bool(x), ValueView::Bool(y)) => bool_cmp(y, x),
        (ValueView::Int(x), ValueView::Int(y)) => i64_cmp(y, x),
        (ValueView::Float(x), ValueView::Float(y)) => float_cmp(y, x),
        (ValueView::Text(x), ValueView::Text(y)) => seq_char_cmp(y, x),
        (ValueView::Binary(x), ValueView::Binary(y)) => seq_u8_cmp(y, x),
        (ValueView::Link(x), ValueView::Link(y)) => u128_cmp(y, x),
        _ => if rank(a) > rank(b) {
            Ordering::Less
        } else {
            Ordering::Greater
        },
    }
}

/// Implemented by values the merge can order for its tie-breaks.
pub trait LexicalCmp {
    /// The order the comparison realizes.
    spec fn lexical_order(&self, other: &Self) -> Ordering;

    /// Compare two values in the lexical total order.
    fn lexical_cmp(&self, other: &Self) -> (r: Ordering)
        ensures
            r == self.lexical_order(other),
    ;
}

/// If the first `i` characters agree, the order is decided past them.
proof fn lemma_seq_char_cmp_skip(a: Seq<char>, b: Seq<char>, i: int)
    requires
        0 <= i <= a.len(),
        i <= b.len(),
        forall|j: int| 0 <= j < i ==> a[j] == b[j],
    ensures
        seq_char_cmp(a, b) == seq_char_cmp(a.skip(i), b.skip(i)),
    decreases i,
{
    if i > 0 {
        lemma_seq_char_cmp_skip(a, b, i - 1);
        assert(a.skip(i - 1).len() > 0 && b.skip(i - 1).len() > 0);
        assert(a.skip(i - 1)[0] == a[i - 1] && b.skip(i - 1)[0] == b[i - 1]);
        assert(a.skip(i - 1).drop_first() =~= a.skip(i));
        assert(b.skip(i - 1).drop_first() =~= b.skip(i));
    } else {
        assert(a.skip(0) =~= a);
        assert(b.skip(0) =~= b);
    }
}

/// If the first `i` bytes agree, the order is decided past them.
proof fn lemma_seq_u8_cmp_skip(a: Seq<u8>, b: Seq<u8>, i: int)
    requires
        0 <= i <= a.len(),
        i <= b.len(),
        forall|j: int| 0 <= j < i ==> a[j] == b[j],
    ensures
        seq_u8_cmp(a, b) == seq_u8_cmp(a.skip(i), b.skip(i)),
    decreases i,
{
    if i > 0 {
        lemma_seq_u8_cmp_skip(a, b, i - 1);
        assert(a.skip(i - 1).len() > 0 && b.skip(i - 1).len() > 0);
        assert(a.skip(i - 1)[0] == a[i - 1] && b.skip(i - 1)[0] == b[i - 1]);
        assert(a.skip(i - 1).drop_first() =~= a.skip(i));
        assert(b.skip(i - 1).drop_first() =~= b.skip(i));
    } else {
        assert(a.skip(0) =~= a);
        assert(b.skip(0) =~= b);
    }
}

/// Compare two strings lexicographically by code point.
fn cmp_text(a: &str, b: &str) -> (r: Ordering)
    ensures
        r == seq_char_cmp(a@, b@),
{
    let alen = a.unicode_len();
    let blen = b.unicode_len();
    let mut i: usize = 0;
    loop
        invariant
            i <= alen,
            i <= blen,
            alen == a@.len(),
            blen == b@.len(),
            forall|j: int| 0 <= j < i ==> a@[j] == b@[j],
        decreases alen - i,
    {
        proof {
            lemma_seq_char_cmp_skip(a@, b@, i as int);
        }
        if i >= alen || i >= blen {
            if alen < blen {
                return Ordering::Less;
            } else if alen > blen {
                return Ordering::Greater;
            } else {
                proof {
                    assert(a@.skip(i as int).len() == 0 && b@.skip(i as int).len() == 0);
                }
                return Ordering::Equal;
            }
        }
        let ca = a.get_char(i);
        let cb = b.get_char(i);
        let ua = ca as u32;
        let ub = cb as u32;
        proof {
            assert(a@.skip(i as int)[0] == a@[i as int]);
            assert(b@.skip(i as int)[0] == b@[i as int]);
        }
        if ua < ub {
            return Ordering::Less;
        } else if ua > ub {
            return Ordering::Greater;
        }
        proof {
            vstd::utf8::char_u32_cast(ca, ua);
            vstd::utf8::char_u32_cast(cb, ub);
        }
        i = i + 1;
    }
}

/// Compare two byte sequences lexicographically.
fn cmp_bytes(a: &Vec<u8>, b: &Vec<u8>) -> (r: Ordering)
    ensures
        r == seq_u8_cmp(a@, b@),
{
    let alen = a.len();
    let blen = b.len();
    let mut i: usize = 0;
    loop
        invariant
            i <= alen,
            i <= blen,
            alen == a@.len(),
            blen == b@.len(),
            forall|j: int| 0 <= j < i ==> a@[j] == b@[j],
        decreases alen - i,
    {
        proof {
            lemma_seq_u8_cmp_skip(a@, b@, i as int);
        }
        if i >= alen || i >= blen {
            if alen < blen {
                return Ordering::Less;
            } else if alen > blen {
                return Ordering::Greater;
            } else {
                return Ordering::Equal;
            }
        }
        let x = a[i];
        let y = b[i];
        proof {
            assert(a@.skip(i as int)[0] == a@[i as int]);
            assert(b@.skip(i as int)[0] == b@[i as int]);
        }
        if x < y {
            return Ordering::Less;
        } else if x > y {
            return Ordering::Greater;
        }
        i = i + 1;
    }
}

/// Compare two float bit patterns in the refined numeric order.
fn cmp_float_bits(x: u64, y: u64) -> (r: Ordering)
    ensures
        r == float_cmp(x, y),
{
    let kx = float_key_exec(x);
    let ky = float_key_exec(y);
    if kx < ky {
        Ordering::Less
    } else if kx > ky {
        Ordering::Greater
    } else if x < y {
        Ordering::Less
    } else if x > y {
        Ordering::Greater
    } else {
        Ordering::Equal
    }
}

fn float_key_exec(bits: u64) -> (r: u64)
    ensures
        r == float_order_key(bits),
{
    let is_nan = bits & 0x7FF0_0000_0000_0000 == 0x7FF0_0000_0000_0000 && bits
        & 0x000F_FFFF_FFFF_FFFF != 0;
    if is_nan {
        0
    } else if bits >= 0x8000_0000_0000_0000 {
        !bits
    } else {
        bits | 0x8000_0000_0000_0000
    }
}

fn rank_of(v: &Value) -> (r: u8)
    ensures
        r as int == rank(v@),
{
    match v {
        Value::Empty => 0,
        Value::Bool(_) => 1,
        Value::Int(_) => 2,
        Value::Float(_) => 3,
        Value::Text(_) => 4,
        Value::Binary(_) => 5,
        Value::Link(_) => 6,
    }
}

impl LexicalCmp for Value {
    open spec fn lexical_order(&self, other: &Value) -> Ordering {
        lexical_cmp_spec(self@, other@)
    }

    fn lexical_cmp(&self, other: &Value) -> (r: Ordering)
        ensures
            r == self.lexical_order(other),
    {
        match (self, other) {
            (Value::Empty, Value::Empty) => Ordering::Equal,
            (Value::Bool(x), Value::Bool(y)) => {
                if *x == *y {
                    Ordering::Equal
                } else if *x {
                    Ordering::Less
                } else {
                    Ordering::Greater
                }
            },
            (Value::Int(x), Value::Int(y)) => {
                if *y < *x {
                    Ordering::Less
                } else if *y > *x {
                    Ordering::Greater
                } else {
                    Ordering::Equal
                }
            },
            (Value::Float(x), Value::Float(y)) => cmp_float_bits(*y, *x),
            (Value::Text(x), Value::Text(y)) => cmp_text(y.as_str(), x.as_str()),
            (Value::Binary(x), Value::Binary(y)) => cmp_bytes(y, x),
            (Value::Link(x), Value::Link(y)) => {
                if y.0 < x.0 {
                    Ordering::Less
                } else if y.0 > x.0 {
                    Ordering::Greater
                } else {
                    Ordering::Equal
                }
            },
            _ => {
                let ra = rank_of(self);
                let rb = rank_of(other);
                if ra > rb {
                    Ordering::Less
                } else {
                    Ordering::Greater
                }
            },
        }
    }
}

/// What a field merge did.
#[derive(Clone, Copy, PartialEq, Eq, Structural, Debug)]
pub enum MergeOutcome {
    /// Nothing changed: the incoming field was equal, lexically
    /// dominated, or older.
    Unchanged,
    /// The incoming value — and, for a newer timestamp, the timestamp
    /// too — was adopted.
    Updated,
    /// The incoming timestamp was further ahead of the local clock than
    /// the grace window allows: discarded as skew or forgery.
    Discarded,
    /// The incoming timestamp is ahead of the local clock but within
    /// the grace window. The field is left unchanged for now; the
    /// caller should re-apply the update once the clock reaches it.
    Deferred,
}

/// The field a merge leaves in place, given the local clock `now`.
pub open spec fn merged_field(cur: FieldView, inc: FieldView, now: u64) -> FieldView {
    if inc.updated_at == cur.updated_at {
        if lexical_cmp_spec(cur.value, inc.value) is Greater {
            FieldView { updated_at: cur.updated_at, value: inc.value }
        } else {
            cur
        }
    } else if inc.updated_at < cur.updated_at {
        cur
    } else if inc.updated_at <= now {
        inc
    } else {
        cur
    }
}

/// Which outcome a merge reports, given the local clock `now`.
pub open spec fn merge_decision(cur: FieldView, inc: FieldView, now: u64) -> MergeOutcome {
    if inc.updated_at == cur.updated_at {
        if lexical_cmp_spec(cur.value, inc.value) is Greater {
            MergeOutcome::Updated
        } else {
            MergeOutcome::Unchanged
        }
    } else if inc.updated_at < cur.updated_at {
        MergeOutcome::Unchanged
    } else if inc.updated_at <= now {
        MergeOutcome::Updated
    } else if inc.updated_at - now > FUTURE_UPDATE_THRESHOLD_MS {
        MergeOutcome::Discarded
    } else {
        MergeOutcome::Deferred
    }
}

impl Field {
    /// A field holding `value`, stamped with the current wall clock.
    pub fn new(value: Value) -> (r: Field)
        ensures
            r@.value == value@,
    {
        let updated_at = now_millis();
        Field { updated_at, value }
    }

    /// A field holding `value`, stamped with the given moment.
    pub fn new_at(value: Value, updated_at: u64) -> (r: Field)
        ensures
            r@ == (FieldView { updated_at, value: value@ }),
    {
        Field { updated_at, value }
    }

    /// The value of the field.
    pub fn value(&self) -> (r: &Value)
        ensures
            r@ == self@.value,
    {
        &self.value
    }

    /// The moment, in milliseconds since the epoch, at which the value
    /// was adopted.
    pub fn state(&self) -> (r: u64)
        ensures
            r == self@.updated_at,
    {
        self.updated_at
    }

    /// Merge an incoming field into this one.
    ///
    /// Same timestamp: the lexically dominant value survives, whichever
    /// side held it. Older incoming timestamp: ignored. Newer and not
    /// ahead of `now`: adopted wholesale. Ahead of `now` beyond the
    /// grace window: discarded. Ahead within the window: left unchanged
    /// and reported [`MergeOutcome::Deferred`], so the caller can
    /// re-apply the update once the clock reaches its timestamp.
    pub fn merge_with(&mut self, field: &Field, now: u64) -> (r: MergeOutcome)
        ensures
            final(self)@ == merged_field(old(self)@, field@, now),
            r == merge_decision(old(self)@, field@, now),
    {
        if field.updated_at == self.updated_at {
            match self.value.lexical_cmp(&field.value) {
                Ordering::Greater => {
                    self.value = field.value.clone();
                    MergeOutcome::Updated
                },
                _ => MergeOutcome::Unchanged,
            }
        } else if field.updated_at < self.updated_at {
            MergeOutcome::Unchanged
        } else if field.updated_at <= now {
            *self = field.clone();
            MergeOutcome::Updated
        } else if field.updated_at - now > FUTURE_UPDATE_THRESHOLD_MS {
            MergeOutcome::Discarded
        } else {
            MergeOutcome::Deferred
        }
    }
}

/// The field map a node merge leaves in the target: every field of
/// either side is present; shared names resolve by the field merge;
/// names on one side only pass through unchanged.
pub open spec fn merged_node_map(
    target: Map<Seq<char>, FieldView>,
    inc: Map<Seq<char>, FieldView>,
    now: u64,
) -> Map<Seq<char>, FieldView> {
    Map::new(
        |k: Seq<char>| target.dom().contains(k) || inc.dom().contains(k),
        |k: Seq<char>|
            if inc.dom().contains(k) {
                if target.dom().contains(k) {
                    merged_field(target[k], inc[k], now)
                } else {
                    inc[k]
                }
            } else {
                target[k]
            },
    )
}

/// Whether an incoming entry gets deferred when merged into `target`.
pub open spec fn defers_against(
    target: Map<Seq<char>, FieldView>,
    now: u64,
) -> spec_fn((Seq<char>, FieldView)) -> bool {
    |p: (Seq<char>, FieldView)|
        target.dom().contains(p.0) && merge_decision(target[p.0], p.1, now)
            is Deferred
}

proof fn lemma_merged_node_map_insert(
    t: Map<Seq<char>, FieldView>,
    m: Map<Seq<char>, FieldView>,
    k: Seq<char>,
    f: FieldView,
    now: u64,
)
    ensures
        merged_node_map(t, m.insert(k, f), now) == merged_node_map(t, m, now).insert(
            k,
            if t.dom().contains(k) {
                merged_field(t[k], f, now)
            } else {
                f
            },
        ),
{
    assert(merged_node_map(t, m.insert(k, f), now) =~= merged_node_map(t, m, now).insert(
        k,
        if t.dom().contains(k) {
            merged_field(t[k], f, now)
        } else {
            f
        },
    ));
}

impl Node {
    /// Merge every field of this node into `other_node`, consuming this
    /// node. Shared names resolve by the field merge under the clock
    /// `now`; new names are inserted as they stand. The returned
    /// entries are exactly the incoming fields whose merge was
    /// deferred, in incoming order, for the caller to re-apply once the
    /// clock reaches their timestamps.
    ///
    /// Both nodes are assumed to stand for the same logical entity;
    /// identifiers are not compared here.
    pub fn merge_into(self, other_node: &mut Node, now: u64) -> (deferred: Vec<FieldEntry>)
        requires
            self@.wf(),
            old(other_node)@.wf(),
        ensures
            final(other_node)@.wf(),
            final(other_node)@.id == old(other_node)@.id,
            final(other_node)@.map() == merged_node_map(
                old(other_node)@.map(),
                self@.map(),
                now,
            ),
            deferred@.map_values(|e: FieldEntry| e.view_pair()) == self@.entries.filter(
                defers_against(old(other_node)@.map(), now),
            ),
    {
        let ghost inc_entries = self@.entries;
        let ghost target0 = old(other_node)@.map();
        let ghost pred = defers_against(target0, now);
        let Node { id: _, fields: inc_fields } = self;
        let mut deferred: Vec<FieldEntry> = Vec::new();
        let mut i: usize = 0;
        while i < inc_fields.len()
            invariant
                i <= inc_fields.len(),
                inc_fields@.map_values(|e: FieldEntry| e.view_pair()) == inc_entries,
                unique_keys(inc_entries),
                other_node@.wf(),
                other_node@.id == old(other_node)@.id,
                target0 == old(other_node)@.map(),
                pred == defers_against(target0, now),
                other_node@.map() == merged_node_map(
                    target0,
                    entries_to_map(inc_entries.take(i as int)),
                    now,
                ),
                deferred@.map_values(|e: FieldEntry| e.view_pair()) == inc_entries.take(
                    i as int,
                ).filter(pred),
            decreases inc_fields.len() - i,
        {
            let ghost k = inc_entries[i as int].0;
            let ghost f = inc_entries[i as int].1;
            let ghost m_before = entries_to_map(inc_entries.take(i as int));
            proof {
                // The incoming name is fresh among the entries already merged.
                assert(inc_fields@[i as int].view_pair() == inc_entries[i as int]);
                lemma_entries_to_map_dom(inc_entries.take(i as int), k);
                assert(forall|j: int| 0 <= j < i ==> inc_entries.take(i as int)[j]
                    == inc_entries[j]);
                assert(!m_before.dom().contains(k));
                // One more incoming entry extends the merged-so-far map.
                assert(inc_entries.take(i + 1).drop_last() =~= inc_entries.take(i as int));
                assert(entries_to_map(inc_entries.take(i + 1)) == m_before.insert(k, f));
                lemma_merged_node_map_insert(target0, m_before, k, f, now);
                // Filter the one new entry.
                reveal_with_fuel(Seq::filter, 2);
                assert(inc_entries.take(i + 1).len() == i + 1);
                assert(inc_entries.take(i + 1).last() == inc_entries[i as int]);
                assert(inc_entries.take(i + 1).filter(pred) == if pred(inc_entries[i as int]) {
                    inc_entries.take(i as int).filter(pred).push(inc_entries[i as int])
                } else {
                    inc_entries.take(i as int).filter(pred)
                });
            }
            let e = &inc_fields[i];
            let idx = other_node.index_of(&e.name);
            proof {
                lemma_entries_to_map_dom(other_node@.entries, k);
                if idx is Some {
                    lemma_entries_to_map_index(other_node@.entries, idx->0 as int);
                }
            }
            match idx {
                Some(j) => {
                    proof {
                        // The name is present now, so it was present in the
                        // original target with the same field.
                        assert(other_node@.map().dom().contains(k));
                        assert(target0.dom().contains(k));
                        assert(other_node@.map()[k] == target0[k]);
                    }
                    let mut cur = other_node.fields[j].field.clone();
                    let outcome = cur.merge_with(&e.field, now);
                    if outcome == MergeOutcome::Deferred {
                        deferred.push(e.clone());
                        proof {
                            assert(deferred@.map_values(|e: FieldEntry| e.view_pair())
                                =~= inc_entries.take(i + 1).filter(pred));
                        }
                    } else {
                        proof {
                            assert(!pred(inc_entries[i as int]));
                        }
                    }
                    let name2 = other_node.fields[j].name.clone();
                    let ghost entries_before = other_node@.entries;
                    other_node.fields.set(j, FieldEntry { name: name2, field: cur });
                    proof {
                        assert(other_node@.entries =~= entries_before.update(
                            j as int,
                            (k, merged_field(target0[k], f, now)),
                        ));
                        lemma_entries_map_update(
                            entries_before,
                            j as int,
                            (k, merged_field(target0[k], f, now)),
                        );
                    }
                },
                None => {
                    proof {
                        assert(!other_node@.map().dom().contains(k));
                        assert(!target0.dom().contains(k));
                        assert(!pred(inc_entries[i as int]));
                    }
                    let ghost entries_before = other_node@.entries;
                    other_node.fields.push(e.clone());
                    proof {
                        assert(other_node@.entries =~= entries_before.push((k, f)));
                        assert(other_node@.entries.drop_last() =~= entries_before);
                        assert forall|p: int, q: int|
                            0 <= p < q < other_node@.entries.len() implies other_node@.entries[p].0
                            != other_node@.entries[q].0 by {
                            if q < other_node@.entries.len() - 1 {
                                assert(entries_before[p].0 != entries_before[q].0);
                            } else {
                                lemma_entries_to_map_dom(entries_before, entries_before[p].0);
                            }
                        }
                    }
                },
            }
            proof {
                assert(other_node@.map() =~= merged_node_map(
                    target0,
                    entries_to_map(inc_entries.take(i + 1)),
                    now,
                ));
            }
            i = i + 1;
        }
        proof {
            assert(inc_entries.take(i as int) =~= inc_entries);
            assert(entries_to_map(inc_entries) == self@.map());
        }
        deferred
    }
}

/// The lexical order is reflexive: a value ties only with itself.
pub proof fn lemma_lexical_cmp_reflexive(v: ValueView)
    ensures
        lexical_cmp_spec(v, v) is Equal,
{
    match v {
        ValueView::Text(s) => lemma_seq_char_cmp_reflexive(s),
        ValueView::Binary(b) => lemma_seq_u8_cmp_reflexive(b),
        _ => {},
    }
}

proof fn lemma_seq_char_cmp_reflexive(s: Seq<char>)
    ensures
        seq_char_cmp(s, s) is Equal,
    decreases s.len(),
{
    if s.len() > 0 {
        lemma_seq_char_cmp_reflexive(s.drop_first());
    }
}

proof fn lemma_seq_u8_cmp_reflexive(s: Seq<u8>)
    ensures
        seq_u8_cmp(s, s) is Equal,
    decreases s.len(),
{
    if s.len() > 0 {
        lemma_seq_u8_cmp_reflexive(s.drop_first());
    }
}

/// The lexical order is a strict total order: `Equal` means the values
/// are identical, and swapping the sides swaps `Less` and `Greater`.
pub proof fn lemma_lexical_cmp_total(a: ValueView, b: ValueView)
    ensures
        lexical_cmp_spec(a, b) is Equal <==> a == b,
        lexical_cmp_spec(a, b) is Less <==> lexical_cmp_spec(b, a) is Greater,
{
    match (a, b) {
        (ValueView::Text(x), ValueView::Text(y)) => {
            lemma_seq_char_cmp_total(x, y);
            lemma_seq_char_cmp_total(y, x);
        },
        (ValueView::Binary(x), ValueView::Binary(y)) => {
            lemma_seq_u8_cmp_total(x, y);
            lemma_seq_u8_cmp_total(y, x);
        },
        _ => {},
    }
}

proof fn lemma_seq_char_cmp_total(a: Seq<char>, b: Seq<char>)
    ensures
        seq_char_cmp(a, b) is Equal <==> a == b,
        seq_char_cmp(a, b) is Less <==> seq_char_cmp(b, a) is Greater,
    decreases a.len(),
{
    if a.len() > 0 && b.len() > 0 {
        lemma_seq_char_cmp_total(a.drop_first(), b.drop_first());
        if a[0] as u32 == b[0] as u32 {
            vstd::utf8::char_u32_cast(a[0], a[0] as u32);
            vstd::utf8::char_u32_cast(b[0], b[0] as u32);
            assert(a[0] == b[0]);
            if seq_char_cmp(a, b) is Equal {
                assert(a =~= Seq::empty().push(a[0]) + a.drop_first());
                assert(b =~= Seq::empty().push(b[0]) + b.drop_first());
            }
        }
    } else if seq_char_cmp(a, b) is Equal {
        assert(a =~= b);
    }
}

proof fn lemma_seq_u8_cmp_total(a: Seq<u8>, b: Seq<u8>)
    ensures
        seq_u8_cmp(a, b) is Equal <==> a == b,
        seq_u8_cmp(a, b) is Less <==> seq_u8_cmp(b, a) is Greater,
    decreases a.len(),
{
    if a.len() > 0 && b.len() > 0 {
        lemma_seq_u8_cmp_total(a.drop_first(), b.drop_first());
        if a[0] == b[0] && seq_u8_cmp(a, b) is Equal {
            assert(a =~= Seq::empty().push(a[0]) + a.drop_first());
            assert(b =~= Seq::empty().push(b[0]) + b.drop_first());
        }
    } else if seq_u8_cmp(a, b) is Equal {
        assert(a =~= b);
    }
}

/// Idempotence: merging a field into itself is a no-op, for every value
/// kind, every timestamp, and every reading of the clock.
pub proof fn lemma_merge_idempotent(f: FieldView, now: u64)
    ensures
        merged_field(f, f, now) == f,
        merge_decision(f, f, now) is Unchanged,
{
    lemma_lexical_cmp_reflexive(f.value);
}

/// Idempotence lifts to whole nodes: merging a field map into an
/// identical one changes nothing.
pub proof fn lemma_node_merge_idempotent(m: Map<Seq<char>, FieldView>, now: u64)
    ensures
        merged_node_map(m, m, now) =~= m,
{
    assert forall|k: Seq<char>| m.dom().contains(k) implies merged_node_map(m, m, now)[k]
        == m[k] by {
        lemma_merge_idempotent(m[k], now);
    }
}

/// Equal-timestamp determinism: with identical timestamps the outcome
/// does not depend on which side is "existing"; the surviving value is
/// the lexically dominant operand, at the shared timestamp.
pub proof fn lemma_equal_timestamp_deterministic(a: FieldView, b: FieldView, now: u64)
    requires
        a.updated_at == b.updated_at,
    ensures
        merged_field(a, b, now) == merged_field(b, a, now),
        merged_field(a, b, now).updated_at == a.updated_at,
        merged_field(a, b, now).value == if lexical_cmp_spec(a.value, b.value) is Greater {
            b.value
        } else {
            a.value
        },
{
    lemma_lexical_cmp_total(a.value, b.value);
}

/// The boolean corner of equal-timestamp determinism: `true` survives
/// a tie whichever side holds it.
pub proof fn lemma_true_dominates(a: FieldView, b: FieldView, now: u64, x: bool, y: bool)
    requires
        a.updated_at == b.updated_at,
        a.value == ValueView::Bool(x),
        b.value == ValueView::Bool(y),
    ensures
        merged_field(a, b, now).value == ValueView::Bool(x || y),
        merged_field(b, a, now).value == ValueView::Bool(x || y),
{
}

/// Monotonic timestamps: an incoming field older than the current one
/// never changes it.
pub proof fn lemma_stale_update_ignored(cur: FieldView, inc: FieldView, now: u64)
    requires
        inc.updated_at < cur.updated_at,
    ensures
        merged_field(cur, inc, now) == cur,
        merge_decision(cur, inc, now) is Unchanged,
{
}

/// Additivity: a node merge never removes a field — the merged field
/// set is exactly the union of the two sides'.
pub proof fn lemma_merge_additive(
    target: Map<Seq<char>, FieldView>,
    inc: Map<Seq<char>, FieldView>,
    now: u64,
)
    ensures
        merged_node_map(target, inc, now).dom() =~= target.dom().union(inc.dom()),
        forall|k: Seq<char>| target.dom().contains(k) ==> merged_node_map(
            target,
            inc,
            now,
        ).dom().contains(k),
        forall|k: Seq<char>| inc.dom().contains(k) ==> merged_node_map(
            target,
            inc,
            now,
        ).dom().contains(k),
{
}

/// Convergence for concurrent updates: two incoming fields with
/// distinct timestamps, neither ahead of the clock, merge to the same
/// result whichever is applied first.
pub proof fn lemma_merge_order_independent(c: FieldView, a: FieldView, b: FieldView, now: u64)
    requires
        a.updated_at != b.updated_at,
        a.updated_at <= now,
        b.updated_at <= now,
    ensures
        merged_field(merged_field(c, a, now), b, now) == merged_field(
            merged_field(c, b, now),
            a,
            now,
        ),
{
}

/// The future-threshold boundary, for an incoming field newer than the
/// current one: an update not ahead of `now` (including exactly at
/// `now`) is adopted; one ahead by more than the grace window is
/// discarded; one ahead by the window or less — the boundary itself
/// included, the comparison being strict — is left unchanged and
/// reported deferred.
pub proof fn lemma_future_threshold_boundary(cur: FieldView, inc: FieldView, now: u64)
    requires
        cur.updated_at < inc.updated_at,
    ensures
        inc.updated_at <= now ==> merged_field(cur, inc, now) == inc && merge_decision(
            cur,
            inc,
            now,
        ) is Updated,
        inc.updated_at > now + FUTURE_UPDATE_THRESHOLD_MS ==> merged_field(cur, inc, now) == cur
            && merge_decision(cur, inc, now) is Discarded,
        now < inc.updated_at <= now + FUTURE_UPDATE_THRESHOLD_MS ==> merged_field(cur, inc, now)
            == cur && merge_decision(cur, inc, now) is Deferred,
{
}

} // verus!

