//! The stable binary node encoding: the on-disk compatibility contract.
//!
//! A node file is the 128-bit identifier, little-endian, then a 32-bit
//! field count, then each field in storage order: a length-prefixed
//! UTF-8 name, a 64-bit timestamp, and a tagged value — one tag byte
//! and the variant's payload. A name-mapping file is one tag byte and,
//! when mapped, a 128-bit identifier. Decoding accepts exactly what
//! encoding produces and rejects everything else.

use vstd::bytes::*;
use vstd::prelude::*;
use vstd::slice::slice_subrange;
use vstd::slice::slice_to_vec;
use vstd::utf8::{decode_utf8, encode_utf8, valid_utf8};

use crate::graph::{Field, FieldEntry, FieldView, Node, NodeView, Value, ValueView, unique_keys};
use crate::store::StoreError;
use crate::ulid::Ulid;

verus! {

/// A length-prefixed byte string: a 32-bit length, then the bytes.
pub open spec fn enc_lp(data: Seq<u8>) -> Seq<u8> {
    spec_u32_to_le_bytes(data.len() as u32) + data
}

/// The encoding of one value: a tag byte and the variant's payload.
pub open spec fn enc_value(v: ValueView) -> Seq<u8> {
    match v {
        ValueView::Empty => seq![0u8],
        ValueView::Bool(b) => seq![1u8, (if b { 1u8 } else { 0u8 })],
        ValueView::Int(i) => seq![2u8] + spec_u64_to_le_bytes(i as u64),
        ValueView::Float(bits) => seq![3u8] + spec_u64_to_le_bytes(bits),
        ValueView::Text(s) => seq![4u8] + enc_lp(encode_utf8(s)),
        ValueView::Binary(b) => seq![5u8] + enc_lp(b),
        ValueView::Link(id) => seq![6u8] + spec_u128_to_le_bytes(id),
    }
}

/// The encoding of one field: the timestamp, then the value.
pub open spec fn enc_field(f: FieldView) -> Seq<u8> {
    spec_u64_to_le_bytes(f.updated_at) + enc_value(f.value)
}

/// The encoding of one named field: the name, then the field.
pub open spec fn enc_entry(e: (Seq<char>, FieldView)) -> Seq<u8> {
    enc_lp(encode_utf8(e.0)) + enc_field(e.1)
}

/// The encodings of the fields, in storage order.
pub open spec fn enc_entries(s: Seq<(Seq<char>, FieldView)>) -> Seq<u8>
    decreases s.len(),
{
    if s.len() == 0 {
        Seq::empty()
    } else {
        enc_entry(s.first()) + enc_entries(s.drop_first())
    }
}

/// The encoding of a whole node.
pub open spec fn enc_node(n: NodeView) -> Seq<u8> {
    spec_u128_to_le_bytes(n.id) + spec_u32_to_le_bytes(n.entries.len() as u32) + enc_entries(
        n.entries,
    )
}

/// The encoding of a name-mapping record.
pub open spec fn enc_mapping(m: Option<u128>) -> Seq<u8> {
    match m {
        Option::None => seq![0u8],
        Option::Some(id) => seq![1u8] + spec_u128_to_le_bytes(id),
    }
}

/// Whether a value's variable-length payloads fit their 32-bit lengths.
pub open spec fn value_encodable(v: ValueView) -> bool {
    match v {
        ValueView::Text(s) => encode_utf8(s).len() <= u32::MAX,
        ValueView::Binary(b) => b.len() <= u32::MAX,
        _ => true,
    }
}

/// Whether a node fits the encoding's 32-bit lengths.
pub open spec fn node_encodable(n: NodeView) -> bool {
    &&& n.entries.len() <= u32::MAX
    &&& forall|i: int|
        0 <= i < n.entries.len() ==> encode_utf8(#[trigger] n.entries[i].0).len() <= u32::MAX
            && value_encodable(n.entries[i].1.value)
}

/// Parse a length-prefixed byte string; returns it and the remainder.
pub open spec fn dec_lp(b: Seq<u8>) -> Option<(Seq<u8>, Seq<u8>)> {
    if b.len() < 4 {
        Option::None
    } else {
        let n = spec_u32_from_le_bytes(b.take(4)) as int;
        let r = b.skip(4);
        if r.len() < n {
            Option::None
        } else {
            Option::Some((r.take(n), r.skip(n)))
        }
    }
}

/// Parse one value; returns it and the remainder.
pub open spec fn dec_value(b: Seq<u8>) -> Option<(ValueView, Seq<u8>)> {
    if b.len() < 1 {
        Option::None
    } else {
        let tag = b[0];
        let r = b.skip(1);
        if tag == 0 {
            Option::Some((ValueView::Empty, r))
        } else if tag == 1 {
            if r.len() < 1 {
                Option::None
            } else if r[0] == 0 {
                Option::Some((ValueView::Bool(false), r.skip(1)))
            } else if r[0] == 1 {
                Option::Some((ValueView::Bool(true), r.skip(1)))
            } else {
                Option::None
            }
        } else if tag == 2 {
            if r.len() < 8 {
                Option::None
            } else {
                Option::Some(
                    (ValueView::Int(spec_u64_from_le_bytes(r.take(8)) as i64), r.skip(8)),
                )
            }
        } else if tag == 3 {
            if r.len() < 8 {
                Option::None
            } else {
                Option::Some((ValueView::Float(spec_u64_from_le_bytes(r.take(8))), r.skip(8)))
            }
        } else if tag == 4 {
            match dec_lp(r) {
                Option::None => Option::None,
                Option::Some((data, rest)) => if valid_utf8(data) {
                    Option::Some((ValueView::Text(decode_utf8(data)), rest))
                } else {
                    Option::None
                },
            }
        } else if tag == 5 {
            match dec_lp(r) {
                Option::None => Option::None,
                Option::Some((data, rest)) => Option::Some((ValueView::Binary(data), rest)),
            }
        } else if tag == 6 {
            if r.len() < 16 {
                Option::None
            } else {
                Option::Some((ValueView::Link(spec_u128_from_le_bytes(r.take(16))), r.skip(16)))
            }
        } else {
            Option::None
        }
    }
}

/// Parse one field; returns it and the remainder.
pub open spec fn dec_field(b: Seq<u8>) -> Option<(FieldView, Seq<u8>)> {
    if b.len() < 8 {
        Option::None
    } else {
        let t = spec_u64_from_le_bytes(b.take(8));
        match dec_value(b.skip(8)) {
            Option::None => Option::None,
            Option::Some((v, r)) => Option::Some((FieldView { updated_at: t, value: v }, r)),
        }
    }
}

/// Parse one named field; returns it and the remainder.
pub open spec fn dec_entry(b: Seq<u8>) -> Option<((Seq<char>, FieldView), Seq<u8>)> {
    match dec_lp(b) {
        Option::None => Option::None,
        Option::Some((name_bytes, r)) => if valid_utf8(name_bytes) {
            match dec_field(r) {
                Option::None => Option::None,
                Option::Some((f, r2)) => Option::Some(((decode_utf8(name_bytes), f), r2)),
            }
        } else {
            Option::None
        },
    }
}

/// Parse exactly `n` named fields; returns them and the remainder.
pub open spec fn dec_entries(b: Seq<u8>, n: nat) -> Option<
    (Seq<(Seq<char>, FieldView)>, Seq<u8>),
>
    decreases n,
{
    if n == 0 {
        Option::Some((Seq::empty(), b))
    } else {
        match dec_entry(b) {
            Option::None => Option::None,
            Option::Some((e, r)) => match dec_entries(r, (n - 1) as nat) {
                Option::None => Option::None,
                Option::Some((s, r2)) => Option::Some((seq![e] + s, r2)),
            },
        }
    }
}

/// Parse a whole node file. Succeeds only when every byte is consumed
/// and the field names are pairwise distinct.
pub open spec fn dec_node(b: Seq<u8>) -> Option<NodeView> {
    if b.len() < 20 {
        Option::None
    } else {
        let id = spec_u128_from_le_bytes(b.take(16));
        let n = spec_u32_from_le_bytes(b.skip(16).take(4));
        match dec_entries(b.skip(20), n as nat) {
            Option::None => Option::None,
            Option::Some((entries, rest)) => if rest.len() == 0 && unique_keys(entries) {
                Option::Some(NodeView { id, entries })
            } else {
                Option::None
            },
        }
    }
}

/// Parse a whole name-mapping file.
pub open spec fn dec_mapping(b: Seq<u8>) -> Option<Option<u128>> {
    if b.len() == 1 && b[0] == 0 {
        Option::Some(Option::None)
    } else if b.len() == 17 && b[0] == 1 {
        Option::Some(Option::Some(spec_u128_from_le_bytes(b.skip(1))))
    } else {
        Option::None
    }
}

proof fn lemma_dec_lp_enc(data: Seq<u8>, rest: Seq<u8>)
    requires
        data.len() <= u32::MAX,
    ensures
        dec_lp(enc_lp(data) + rest) == Option::Some((data, rest)),
{
    lemma_auto_spec_u32_to_from_le_bytes();
    let b = enc_lp(data) + rest;
    assert(b.take(4) =~= spec_u32_to_le_bytes(data.len() as u32));
    assert(spec_u32_from_le_bytes(b.take(4)) == data.len());
    assert(b.skip(4) =~= data + rest);
    assert((data + rest).take(data.len() as int) =~= data);
    assert((data + rest).skip(data.len() as int) =~= rest);
}

proof fn lemma_cast_i64_u64(x: i64)
    ensures
        (x as u64) as i64 == x,
{
    assert((x as u64) as i64 == x) by (bit_vector);
}

proof fn lemma_dec_value_enc(v: ValueView, rest: Seq<u8>)
    requires
        value_encodable(v),
    ensures
        dec_value(enc_value(v) + rest) == Option::Some((v, rest)),
{
    lemma_auto_spec_u64_to_from_le_bytes();
    lemma_auto_spec_u128_to_from_le_bytes();
    let b = enc_value(v) + rest;
    match v {
        ValueView::Empty => {
            assert(b.skip(1) =~= rest);
        },
        ValueView::Bool(x) => {
            assert(b.skip(1).len() >= 1);
            assert(b.skip(1)[0] == (if x { 1u8 } else { 0u8 }));
            assert(b.skip(1).skip(1) =~= rest);
        },
        ValueView::Int(i) => {
            lemma_cast_i64_u64(i);
            assert(b.skip(1).take(8) =~= spec_u64_to_le_bytes(i as u64));
            assert(b.skip(1).skip(8) =~= rest);
        },
        ValueView::Float(bits) => {
            assert(b.skip(1).take(8) =~= spec_u64_to_le_bytes(bits));
            assert(b.skip(1).skip(8) =~= rest);
        },
        ValueView::Text(s) => {
            broadcast use vstd::utf8::encode_utf8_valid_utf8, vstd::utf8::encode_utf8_decode_utf8;

            lemma_dec_lp_enc(encode_utf8(s), rest);
            assert(b.skip(1) =~= enc_lp(encode_utf8(s)) + rest);
        },
        ValueView::Binary(data) => {
            lemma_dec_lp_enc(data, rest);
            assert(b.skip(1) =~= enc_lp(data) + rest);
        },
        ValueView::Link(id) => {
            assert(b.skip(1).take(16) =~= spec_u128_to_le_bytes(id));
            assert(b.skip(1).skip(16) =~= rest);
        },
    }
}

proof fn lemma_dec_field_enc(f: FieldView, rest: Seq<u8>)
    requires
        value_encodable(f.value),
    ensures
        dec_field(enc_field(f) + rest) == Option::Some((f, rest)),
{
    lemma_auto_spec_u64_to_from_le_bytes();
    let b = enc_field(f) + rest;
    assert(b.take(8) =~= spec_u64_to_le_bytes(f.updated_at));
    assert(b.skip(8) =~= enc_value(f.value) + rest);
    lemma_dec_value_enc(f.value, rest);
}

proof fn lemma_dec_entry_enc(e: (Seq<char>, FieldView), rest: Seq<u8>)
    requires
        encode_utf8(e.0).len() <= u32::MAX,
        value_encodable(e.1.value),
    ensures
        dec_entry(enc_entry(e) + rest) == Option::Some((e, rest)),
{
    broadcast use vstd::utf8::encode_utf8_valid_utf8, vstd::utf8::encode_utf8_decode_utf8;

    let b = enc_entry(e) + rest;
    assert(b =~= enc_lp(encode_utf8(e.0)) + (enc_field(e.1) + rest));
    lemma_dec_lp_enc(encode_utf8(e.0), enc_field(e.1) + rest);
    lemma_dec_field_enc(e.1, rest);
}

proof fn lemma_dec_entries_enc(s: Seq<(Seq<char>, FieldView)>, rest: Seq<u8>)
    requires
        forall|i: int|
            0 <= i < s.len() ==> encode_utf8(#[trigger] s[i].0).len() <= u32::MAX
                && value_encodable(s[i].1.value),
    ensures
        dec_entries(enc_entries(s) + rest, s.len() as nat) == Option::Some((s, rest)),
    decreases s.len(),
{
    if s.len() == 0 {
        assert(enc_entries(s) + rest =~= rest);
        assert(dec_entries(rest, 0) == Option::Some((Seq::<(Seq<char>, FieldView)>::empty(), rest)));
        assert(s =~= Seq::<(Seq<char>, FieldView)>::empty());
    } else {
        let b = enc_entries(s) + rest;
        assert(b =~= enc_entry(s.first()) + (enc_entries(s.drop_first()) + rest));
        lemma_dec_entry_enc(s.first(), enc_entries(s.drop_first()) + rest);
        lemma_dec_entries_enc(s.drop_first(), rest);
        assert(seq![s.first()] + s.drop_first() =~= s);
    }
}

/// Round trip: decoding an encoded node reproduces the node — its
/// identifier, field names, field values and field timestamps — exactly.
pub proof fn lemma_codec_round_trip(n: NodeView)
    requires
        node_encodable(n),
        n.wf(),
    ensures
        dec_node(enc_node(n)) == Option::Some(n),
{
    lemma_auto_spec_u32_to_from_le_bytes();
    lemma_auto_spec_u128_to_from_le_bytes();
    let b = enc_node(n);
    assert(b.take(16) =~= spec_u128_to_le_bytes(n.id));
    assert(b.skip(16).take(4) =~= spec_u32_to_le_bytes(n.entries.len() as u32));
    assert(b.skip(20) =~= enc_entries(n.entries) + Seq::<u8>::empty());
    lemma_dec_entries_enc(n.entries, Seq::empty());
}

proof fn lemma_enc_dec_lp(b: Seq<u8>)
    ensures
        dec_lp(b) matches Some((data, rest)) ==> data.len() <= u32::MAX && enc_lp(data) + rest
            == b,
{
    lemma_auto_spec_u32_to_from_le_bytes();
    if dec_lp(b) is Some {
        let n = spec_u32_from_le_bytes(b.take(4)) as int;
        let data = b.skip(4).take(n);
        let rest = b.skip(4).skip(n);
        assert(spec_u32_to_le_bytes(data.len() as u32) =~= b.take(4));
        assert(enc_lp(data) + rest =~= b);
    }
}

proof fn lemma_enc_dec_value(b: Seq<u8>)
    ensures
        dec_value(b) matches Some((v, rest)) ==> value_encodable(v) && enc_value(v) + rest
            == b,
{
    lemma_auto_spec_u64_to_from_le_bytes();
    lemma_auto_spec_u128_to_from_le_bytes();
    if dec_value(b) is Some {
        let tag = b[0];
        let r = b.skip(1);
        if tag == 0 {
            assert(enc_value(ValueView::Empty) + r =~= b);
        } else if tag == 1 {
            assert(seq![1u8, r[0]] + r.skip(1) =~= b);
        } else if tag == 2 {
            let x = spec_u64_from_le_bytes(r.take(8));
            assert((x as i64) as u64 == x) by (bit_vector);
            assert(spec_u64_to_le_bytes(x) =~= r.take(8));
            assert(seq![2u8] + r.take(8) + r.skip(8) =~= b);
        } else if tag == 3 {
            let x = spec_u64_from_le_bytes(r.take(8));
            assert(spec_u64_to_le_bytes(x) =~= r.take(8));
            assert(seq![3u8] + r.take(8) + r.skip(8) =~= b);
        } else if tag == 4 {
            lemma_enc_dec_lp(r);
            let (data, rest) = dec_lp(r)->0;
            vstd::utf8::decode_utf8_encode_utf8(data);
            assert(encode_utf8(decode_utf8(data)) == data);
            assert(seq![4u8] + (enc_lp(data) + rest) =~= b);
            assert(enc_value(ValueView::Text(decode_utf8(data))) + rest =~= b);
        } else if tag == 5 {
            lemma_enc_dec_lp(r);
            let (data, rest) = dec_lp(r)->0;
            assert(seq![5u8] + (enc_lp(data) + rest) =~= b);
            assert(enc_value(ValueView::Binary(data)) + rest =~= b);
        } else if tag == 6 {
            let x = spec_u128_from_le_bytes(r.take(16));
            assert(spec_u128_to_le_bytes(x) =~= r.take(16));
            assert(seq![6u8] + r.take(16) + r.skip(16) =~= b);
        }
    }
}

proof fn lemma_enc_dec_field(b: Seq<u8>)
    ensures
        dec_field(b) matches Some((f, rest)) ==> value_encodable(f.value) && enc_field(f) + rest
            == b,
{
    lemma_auto_spec_u64_to_from_le_bytes();
    if dec_field(b) is Some {
        let t = spec_u64_from_le_bytes(b.take(8));
        assert(spec_u64_to_le_bytes(t) =~= b.take(8));
        lemma_enc_dec_value(b.skip(8));
        let (v, rest) = dec_value(b.skip(8))->0;
        assert(b.take(8) + (enc_value(v) + rest) =~= b);
        assert(enc_field(FieldView { updated_at: t, value: v }) + rest =~= b);
    }
}

proof fn lemma_enc_dec_entry(b: Seq<u8>)
    ensures
        dec_entry(b) matches Some((e, rest)) ==> encode_utf8(e.0).len() <= u32::MAX
            && value_encodable(e.1.value) && enc_entry(e) + rest == b,
{
    if dec_entry(b) is Some {
        lemma_enc_dec_lp(b);
        let (name_bytes, r) = dec_lp(b)->0;
        vstd::utf8::decode_utf8_encode_utf8(name_bytes);
        assert(encode_utf8(decode_utf8(name_bytes)) == name_bytes);
        lemma_enc_dec_field(r);
        let (f, rest) = dec_field(r)->0;
        assert(enc_lp(name_bytes) + (enc_field(f) + rest) =~= b);
        assert(enc_entry((decode_utf8(name_bytes), f)) + rest =~= b);
    }
}

proof fn lemma_enc_dec_entries(b: Seq<u8>, n: nat)
    ensures
        dec_entries(b, n) matches Some((s, rest)) ==> s.len() == n && (forall|i: int|
            0 <= i < s.len() ==> encode_utf8(#[trigger] s[i].0).len() <= u32::MAX
                && value_encodable(s[i].1.value)) && enc_entries(s) + rest == b,
    decreases n,
{
    if n > 0 && dec_entries(b, n) is Some {
        lemma_enc_dec_entry(b);
        let (e, r) = dec_entry(b)->0;
        lemma_enc_dec_entries(r, (n - 1) as nat);
        let (s2, rest) = dec_entries(r, (n - 1) as nat)->0;
        let s = seq![e] + s2;
        assert(s.first() == e);
        assert(s.drop_first() =~= s2);
        assert(enc_entry(e) + (enc_entries(s2) + rest) =~= b);
        assert(enc_entries(s) + rest =~= b);
    }
}

/// The decoder accepts only the encoding itself: any bytes a node
/// decodes from are exactly that node's encoding, so the two functions
/// form a bijection between well-formed encodable nodes and their
/// files.
pub proof fn lemma_codec_exact(b: Seq<u8>)
    ensures
        dec_node(b) matches Some(n) ==> n.wf() && node_encodable(n) && enc_node(n) == b,
{
    lemma_auto_spec_u32_to_from_le_bytes();
    lemma_auto_spec_u128_to_from_le_bytes();
    if dec_node(b) is Some {
        let id = spec_u128_from_le_bytes(b.take(16));
        let count = spec_u32_from_le_bytes(b.skip(16).take(4));
        lemma_enc_dec_entries(b.skip(20), count as nat);
        let (entries, rest) = dec_entries(b.skip(20), count as nat)->0;
        assert(rest =~= Seq::<u8>::empty());
        assert(spec_u128_to_le_bytes(id) =~= b.take(16));
        assert(spec_u32_to_le_bytes(entries.len() as u32) =~= b.skip(16).take(4));
        assert(enc_entries(entries) + rest =~= enc_entries(entries));
        assert(b.take(16) + b.skip(16).take(4) + b.skip(20) =~= b);
        assert(enc_node(NodeView { id, entries }) =~= b);
    }
}

/// Round trip for name-mapping records.
pub proof fn lemma_mapping_round_trip(m: Option<u128>)
    ensures
        dec_mapping(enc_mapping(m)) == Option::Some(m),
{
    lemma_auto_spec_u128_to_from_le_bytes();
    match m {
        Option::None => {},
        Option::Some(id) => {
            assert(enc_mapping(m).skip(1) =~= spec_u128_to_le_bytes(id));
        },
    }
}

/// Relies on `String::from_utf8`: succeeds exactly on valid UTF-8 and
/// returns the string those bytes spell.
#[verifier::external_body]
pub(crate) fn string_from_utf8(v: Vec<u8>) -> (r: Option<String>)
    ensures
        match r {
            Option::Some(s) => valid_utf8(v@) && s@ == decode_utf8(v@),
            Option::None => !valid_utf8(v@),
        },
{
    String::from_utf8(v).ok()
}

/// Append a length-prefixed byte string; refuse one that outgrows the
/// 32-bit length.
fn push_lp(out: &mut Vec<u8>, data: &[u8]) -> (ok: bool)
    ensures
        ok ==> data@.len() <= u32::MAX && final(out)@ == old(out)@ + enc_lp(data@),
        !ok ==> data@.len() > u32::MAX,
{
    if data.len() > u32::MAX as usize {
        return false;
    }
    let mut len_bytes = u32_to_le_bytes(data.len() as u32);
    out.append(&mut len_bytes);
    let mut data_vec = slice_to_vec(data);
    out.append(&mut data_vec);
    proof {
        assert(final(out)@ =~= old(out)@ + enc_lp(data@));
    }
    true
}

/// Append the encoding of one value.
fn encode_value_into(out: &mut Vec<u8>, v: &Value) -> (ok: bool)
    ensures
        ok ==> value_encodable(v@) && final(out)@ == old(out)@ + enc_value(v@),
        !ok ==> !value_encodable(v@),
{
    match v {
        Value::Empty => {
            out.push(0u8);
            proof {
                assert(final(out)@ =~= old(out)@ + enc_value(v@));
            }
            true
        },
        Value::Bool(b) => {
            out.push(1u8);
            out.push(if *b {
                1u8
            } else {
                0u8
            });
            proof {
                assert(final(out)@ =~= old(out)@ + enc_value(v@));
            }
            true
        },
        Value::Int(i) => {
            out.push(2u8);
            let mut payload = u64_to_le_bytes(*i as u64);
            out.append(&mut payload);
            proof {
                assert(final(out)@ =~= old(out)@ + enc_value(v@));
            }
            true
        },
        Value::Float(bits) => {
            out.push(3u8);
            let mut payload = u64_to_le_bytes(*bits);
            out.append(&mut payload);
            proof {
                assert(final(out)@ =~= old(out)@ + enc_value(v@));
            }
            true
        },
        Value::Text(s) => {
            let data = s.as_str().as_bytes();
            if data.len() > u32::MAX as usize {
                return false;
            }
            out.push(4u8);
            let ok = push_lp(out, data);
            proof {
                assert(final(out)@ =~= old(out)@ + enc_value(v@));
            }
            ok
        },
        Value::Binary(b) => {
            if b.len() > u32::MAX as usize {
                return false;
            }
            out.push(5u8);
            let ok = push_lp(out, b.as_slice());
            proof {
                assert(final(out)@ =~= old(out)@ + enc_value(v@));
            }
            ok
        },
        Value::Link(id) => {
            out.push(6u8);
            let mut payload = u128_to_le_bytes(id.0);
            out.append(&mut payload);
            proof {
                assert(final(out)@ =~= old(out)@ + enc_value(v@));
            }
            true
        },
    }
}

/// Append the encoding of one named field.
fn encode_entry_into(out: &mut Vec<u8>, e: &FieldEntry) -> (ok: bool)
    ensures
        ok ==> encode_utf8(e.name@).len() <= u32::MAX && value_encodable(e.field@.value)
            && final(out)@ == old(out)@ + enc_entry(e.view_pair()),
        !ok ==> !(encode_utf8(e.name@).len() <= u32::MAX && value_encodable(e.field@.value)),
{
    let name_bytes = e.name.as_str().as_bytes();
    if name_bytes.len() > u32::MAX as usize {
        return false;
    }
    let ghost mid = out@ + enc_lp(encode_utf8(e.name@));
    let ok1 = push_lp(out, name_bytes);
    let mut ts = u64_to_le_bytes(e.field.updated_at);
    out.append(&mut ts);
    let ok2 = encode_value_into(out, &e.field.value);
    if !ok2 {
        return false;
    }
    proof {
        assert(final(out)@ =~= old(out)@ + enc_entry(e.view_pair()));
    }
    true
}

proof fn lemma_enc_entries_snoc(s: Seq<(Seq<char>, FieldView)>, i: int)
    requires
        0 <= i < s.len(),
    ensures
        enc_entries(s.take(i + 1)) == enc_entries(s.take(i)) + enc_entry(s[i]),
    decreases i,
{
    if i == 0 {
        assert(s.take(1).first() == s[0]);
        assert(s.take(1).drop_first() =~= Seq::<(Seq<char>, FieldView)>::empty());
        assert(s.take(0) =~= Seq::<(Seq<char>, FieldView)>::empty());
        assert(enc_entries(s.take(1)) =~= enc_entries(s.take(0)) + enc_entry(s[0]));
    } else {
        lemma_enc_entries_snoc(s.drop_first(), i - 1);
        assert(s.take(i + 1).drop_first() =~= s.drop_first().take(i));
        assert(s.take(i).drop_first() =~= s.drop_first().take(i - 1));
        assert(s.take(i + 1).first() == s[0]);
        assert(s.take(i).first() == s[0]);
        assert(s.drop_first()[i - 1] == s[i]);
        assert(enc_entries(s.take(i + 1)) =~= enc_entries(s.take(i)) + enc_entry(s[i]));
    }
}

/// Encode a node into its stable binary form. Fails only when a name,
/// a payload, or the field count outgrows the encoding's 32-bit
/// lengths.
pub fn encode_node(node: &Node) -> (r: Result<Vec<u8>, StoreError>)
    ensures
        match r {
            Result::Ok(out) => node_encodable(node@) && out@ == enc_node(node@),
            Result::Err(e) => !node_encodable(node@) && e is Other,
        },
{
    if node.fields.len() > u32::MAX as usize {
        return Err(StoreError::Other(String::from_str("node does not fit the encoding")));
    }
    let mut out = u128_to_le_bytes(node.id.bits());
    let mut count_bytes = u32_to_le_bytes(node.fields.len() as u32);
    out.append(&mut count_bytes);
    let ghost head = out@;
    let mut i: usize = 0;
    while i < node.fields.len()
        invariant
            i <= node.fields.len(),
            head == spec_u128_to_le_bytes(node@.id) + spec_u32_to_le_bytes(
                node@.entries.len() as u32,
            ),
            out@ == head + enc_entries(node@.entries.take(i as int)),
            forall|j: int|
                0 <= j < i ==> encode_utf8(#[trigger] node@.entries[j].0).len() <= u32::MAX
                    && value_encodable(node@.entries[j].1.value),
        decreases node.fields.len() - i,
    {
        let ok = encode_entry_into(&mut out, &node.fields[i]);
        if !ok {
            proof {
                assert(node@.entries[i as int] == node.fields@[i as int].view_pair());
                assert(!(encode_utf8(node@.entries[i as int].0).len() <= u32::MAX
                    && value_encodable(node@.entries[i as int].1.value)));
                assert(!node_encodable(node@));
            }
            return Err(StoreError::Other(String::from_str("node does not fit the encoding")));
        }
        proof {
            assert(node@.entries[i as int] == node.fields@[i as int].view_pair());
            assert(encode_utf8(node@.entries[i as int].0).len() <= u32::MAX);
            assert(value_encodable(node@.entries[i as int].1.value));
            lemma_enc_entries_snoc(node@.entries, i as int);
            assert(out@ =~= head + enc_entries(node@.entries.take(i + 1)));
        }
        i = i + 1;
    }
    proof {
        assert(node@.entries.take(i as int) =~= node@.entries);
        assert(out@ =~= enc_node(node@));
    }
    Ok(out)
}

/// Encode a name-mapping record.
pub fn encode_mapping(m: &Option<Ulid>) -> (r: Vec<u8>)
    ensures
        r@ == enc_mapping(mapping_view(*m)),
{
    match m {
        Option::None => {
            let mut out: Vec<u8> = Vec::new();
            out.push(0u8);
            proof {
                assert(out@ =~= enc_mapping(mapping_view(*m)));
            }
            out
        },
        Option::Some(id) => {
            let mut out: Vec<u8> = Vec::new();
            out.push(1u8);
            let mut payload = u128_to_le_bytes(id.0);
            out.append(&mut payload);
            proof {
                assert(out@ =~= enc_mapping(mapping_view(*m)));
            }
            out
        },
    }
}

/// The raw form of an optional identifier.
pub open spec fn mapping_view(m: Option<Ulid>) -> Option<u128> {
    match m {
        Option::Some(u) => Option::Some(u.0),
        Option::None => Option::None,
    }
}

/// Read a length-prefixed byte string at `pos`.
fn decode_lp(bytes: &Vec<u8>, pos: usize) -> (r: Result<(Vec<u8>, usize), StoreError>)
    requires
        pos <= bytes@.len(),
    ensures
        match r {
            Result::Ok((data, end)) => pos <= end <= bytes@.len() && dec_lp(
                bytes@.skip(pos as int),
            ) == Option::Some((data@, bytes@.skip(end as int))),
            Result::Err(e) => dec_lp(bytes@.skip(pos as int)) is None && e
                == StoreError::UnrecognizedData,
        },
{
    let n = bytes.len();
    if n - pos < 4 {
        return Err(StoreError::UnrecognizedData);
    }
    let sl = slice_subrange(bytes.as_slice(), pos, pos + 4);
    let m = u32_from_le_bytes(sl);
    proof {
        assert(bytes@.subrange(pos as int, pos + 4) =~= bytes@.skip(pos as int).take(4));
    }
    let mlen = m as usize;
    if n - (pos + 4) < mlen {
        proof {
            assert(bytes@.skip(pos as int).skip(4).len() < mlen);
        }
        return Err(StoreError::UnrecognizedData);
    }
    let data_sl = slice_subrange(bytes.as_slice(), pos + 4, pos + 4 + mlen);
    let data = slice_to_vec(data_sl);
    proof {
        assert(bytes@.skip(pos as int).skip(4) =~= bytes@.skip(pos + 4));
        assert(bytes@.subrange(pos + 4, pos + 4 + mlen) =~= bytes@.skip(pos + 4).take(
            mlen as int,
        ));
        assert(bytes@.skip(pos + 4).skip(mlen as int) =~= bytes@.skip(pos + 4 + mlen));
    }
    Ok((data, pos + 4 + mlen))
}

/// Read one value at `pos`.
fn decode_value(bytes: &Vec<u8>, pos: usize) -> (r: Result<(Value, usize), StoreError>)
    requires
        pos <= bytes@.len(),
    ensures
        match r {
            Result::Ok((v, end)) => pos <= end <= bytes@.len() && dec_value(
                bytes@.skip(pos as int),
            ) == Option::Some((v@, bytes@.skip(end as int))),
            Result::Err(e) => dec_value(bytes@.skip(pos as int)) is None && e
                == StoreError::UnrecognizedData,
        },
{
    let n = bytes.len();
    if n - pos < 1 {
        return Err(StoreError::UnrecognizedData);
    }
    let tag = bytes[pos];
    proof {
        assert(bytes@.skip(pos as int)[0] == bytes@[pos as int]);
        assert(bytes@.skip(pos as int).skip(1) =~= bytes@.skip(pos + 1));
    }
    if tag == 0 {
        Ok((Value::Empty, pos + 1))
    } else if tag == 1 {
        if n - (pos + 1) < 1 {
            return Err(StoreError::UnrecognizedData);
        }
        let b = bytes[pos + 1];
        proof {
            assert(bytes@.skip(pos + 1)[0] == bytes@[pos + 1]);
            assert(bytes@.skip(pos + 1).skip(1) =~= bytes@.skip(pos + 2));
        }
        if b == 0 {
            Ok((Value::Bool(false), pos + 2))
        } else if b == 1 {
            Ok((Value::Bool(true), pos + 2))
        } else {
            Err(StoreError::UnrecognizedData)
        }
    } else if tag == 2 {
        if n - (pos + 1) < 8 {
            return Err(StoreError::UnrecognizedData);
        }
        let sl = slice_subrange(bytes.as_slice(), pos + 1, pos + 9);
        let x = u64_from_le_bytes(sl);
        proof {
            assert(bytes@.subrange(pos + 1, pos + 9) =~= bytes@.skip(pos + 1).take(8));
            assert(bytes@.skip(pos + 1).skip(8) =~= bytes@.skip(pos + 9));
        }
        Ok((Value::Int(x as i64), pos + 9))
    } else if tag == 3 {
        if n - (pos + 1) < 8 {
            return Err(StoreError::UnrecognizedData);
        }
        let sl = slice_subrange(bytes.as_slice(), pos + 1, pos + 9);
        let x = u64_from_le_bytes(sl);
        proof {
            assert(bytes@.subrange(pos + 1, pos + 9) =~= bytes@.skip(pos + 1).take(8));
            assert(bytes@.skip(pos + 1).skip(8) =~= bytes@.skip(pos + 9));
        }
        Ok((Value::Float(x), pos + 9))
    } else if tag == 4 {
        let (data, end) = match decode_lp(bytes, pos + 1) {
            Ok(x) => x,
            Err(e) => {
                return Err(e);
            },
        };
        match string_from_utf8(data) {
            Some(s) => Ok((Value::Text(s), end)),
            None => Err(StoreError::UnrecognizedData),
        }
    } else if tag == 5 {
        let (data, end) = match decode_lp(bytes, pos + 1) {
            Ok(x) => x,
            Err(e) => {
                return Err(e);
            },
        };
        Ok((Value::Binary(data), end))
    } else if tag == 6 {
        if n - (pos + 1) < 16 {
            return Err(StoreError::UnrecognizedData);
        }
        let sl = slice_subrange(bytes.as_slice(), pos + 1, pos + 17);
        let x = u128_from_le_bytes(sl);
        proof {
            assert(bytes@.subrange(pos + 1, pos + 17) =~= bytes@.skip(pos + 1).take(16));
            assert(bytes@.skip(pos + 1).skip(16) =~= bytes@.skip(pos + 17));
        }
        Ok((Value::Link(Ulid::from_bits(x)), pos + 17))
    } else {
        Err(StoreError::UnrecognizedData)
    }
}

/// Read one named field at `pos`.
fn decode_entry(bytes: &Vec<u8>, pos: usize) -> (r: Result<(FieldEntry, usize), StoreError>)
    requires
        pos <= bytes@.len(),
    ensures
        match r {
            Result::Ok((e, end)) => pos <= end <= bytes@.len() && dec_entry(
                bytes@.skip(pos as int),
            ) == Option::Some((e.view_pair(), bytes@.skip(end as int))),
            Result::Err(e) => dec_entry(bytes@.skip(pos as int)) is None && e
                == StoreError::UnrecognizedData,
        },
{
    let (name_bytes, mid) = match decode_lp(bytes, pos) {
        Ok(x) => x,
        Err(e) => {
            return Err(e);
        },
    };
    let name = match string_from_utf8(name_bytes) {
        Some(s) => s,
        None => {
            return Err(StoreError::UnrecognizedData);
        },
    };
    let n = bytes.len();
    if n - mid < 8 {
        return Err(StoreError::UnrecognizedData);
    }
    let sl = slice_subrange(bytes.as_slice(), mid, mid + 8);
    let ts = u64_from_le_bytes(sl);
    proof {
        assert(bytes@.subrange(mid as int, mid + 8) =~= bytes@.skip(mid as int).take(8));
        assert(bytes@.skip(mid as int).skip(8) =~= bytes@.skip(mid + 8));
    }
    let (value, end) = match decode_value(bytes, mid + 8) {
        Ok(x) => x,
        Err(e) => {
            return Err(e);
        },
    };
    Ok((FieldEntry { name, field: Field { updated_at: ts, value } }, end))
}

/// Decode a node from its stable binary form. Fails, with the
/// unrecognized-data kind, exactly on bytes that no node encodes to:
/// short or trailing data, an unknown tag, invalid UTF-8, or a
/// duplicated field name.
pub fn decode_node(bytes: &Vec<u8>) -> (r: Result<Node, StoreError>)
    ensures
        match r {
            Result::Ok(node) => node@.wf() && dec_node(bytes@) == Option::Some(node@),
            Result::Err(e) => dec_node(bytes@) is None && e == StoreError::UnrecognizedData,
        },
{
    if bytes.len() < 20 {
        return Err(StoreError::UnrecognizedData);
    }
    let id_sl = slice_subrange(bytes.as_slice(), 0, 16);
    let id = u128_from_le_bytes(id_sl);
    let count_sl = slice_subrange(bytes.as_slice(), 16, 20);
    let count = u32_from_le_bytes(count_sl);
    proof {
        assert(bytes@.subrange(0, 16) =~= bytes@.take(16));
        assert(bytes@.subrange(16, 20) =~= bytes@.skip(16).take(4));
    }
    let mut node = Node::with_id(Ulid::from_bits(id));
    let mut pos: usize = 20;
    let mut i: u32 = 0;
    while i < count
        invariant
            20 <= pos <= bytes@.len(),
            i <= count,
            id == spec_u128_from_le_bytes(bytes@.take(16)),
            count == spec_u32_from_le_bytes(bytes@.skip(16).take(4)),
            node@.id == id,
            node@.wf(),
            node@.entries.len() == i,
            dec_entries(bytes@.skip(20), count as nat) == (match dec_entries(
                bytes@.skip(pos as int),
                (count - i) as nat,
            ) {
                Option::None => Option::<(Seq<(Seq<char>, FieldView)>, Seq<u8>)>::None,
                Option::Some((s, r)) => Option::Some((node@.entries + s, r)),
            }),
        decreases count - i,
    {
        let ghost rest_before = bytes@.skip(pos as int);
        let (entry, newpos) = match decode_entry(bytes, pos) {
            Ok(x) => x,
            Err(e) => {
                proof {
                    assert(dec_entries(rest_before, (count - i) as nat) is None);
                }
                return Err(e);
            },
        };
        let ghost e_view = entry.view_pair();
        let ghost rest_after = bytes@.skip(newpos as int);
        let dup = node.index_of(&entry.name);
        if dup.is_some() {
            proof {
                // Any full parse repeats this name at two positions, so
                // the whole file is rejected.
                let j = choose|j: int|
                    0 <= j < node@.entries.len() && node@.entries[j].0 == e_view.0;
                match dec_entries(rest_before, (count - i) as nat) {
                    Option::None => {},
                    Option::Some((s, r)) => {
                        assert(s =~= seq![e_view] + dec_entries(
                            rest_after,
                            (count - i - 1) as nat,
                        )->Some_0.0);
                        let full = node@.entries + s;
                        assert(full[j].0 == e_view.0);
                        assert(full[node@.entries.len() as int].0 == e_view.0);
                        assert(!unique_keys(full));
                    },
                }
            }
            return Err(StoreError::UnrecognizedData);
        }
        let ghost entries_before = node@.entries;
        node.fields.push(entry);
        proof {
            assert(node@.entries =~= entries_before.push(e_view));
            assert forall|p: int, q: int|
                0 <= p < q < node@.entries.len() implies node@.entries[p].0
                != node@.entries[q].0 by {
                if q < node@.entries.len() - 1 {
                    assert(entries_before[p].0 != entries_before[q].0);
                }
            }
            match dec_entries(rest_after, (count - i - 1) as nat) {
                Option::None => {
                    assert(dec_entries(rest_before, (count - i) as nat) is None);
                },
                Option::Some((s2, r2)) => {
                    assert(dec_entries(rest_before, (count - i) as nat) == Option::Some(
                        ((seq![e_view] + s2), r2),
                    ));
                    assert(entries_before + (seq![e_view] + s2) =~= node@.entries + s2);
                },
            }
        }
        pos = newpos;
        i = i + 1;
    }
    proof {
        assert(dec_entries(bytes@.skip(pos as int), 0) == Option::Some(
            (Seq::<(Seq<char>, FieldView)>::empty(), bytes@.skip(pos as int)),
        ));
        assert(node@.entries + Seq::<(Seq<char>, FieldView)>::empty() =~= node@.entries);
    }
    if pos != bytes.len() {
        proof {
            assert(bytes@.skip(pos as int).len() > 0);
        }
        return Err(StoreError::UnrecognizedData);
    }
    proof {
        assert(bytes@.skip(pos as int).len() == 0);
    }
    Ok(node)
}

/// Decode a name-mapping record.
pub fn decode_mapping(bytes: &Vec<u8>) -> (r: Result<Option<Ulid>, StoreError>)
    ensures
        match r {
            Result::Ok(m) => dec_mapping(bytes@) == Option::Some(mapping_view(m)),
            Result::Err(e) => dec_mapping(bytes@) is None && e == StoreError::UnrecognizedData,
        },
{
    if bytes.len() == 1 {
        if bytes[0] == 0 {
            Ok(None)
        } else {
            Err(StoreError::UnrecognizedData)
        }
    } else if bytes.len() == 17 {
        if bytes[0] == 1 {
            let sl = slice_subrange(bytes.as_slice(), 1, 17);
            let id = u128_from_le_bytes(sl);
            proof {
                assert(bytes@.subrange(1, 17) =~= bytes@.skip(1));
            }
            Ok(Some(Ulid::from_bits(id)))
        } else {
            Err(StoreError::UnrecognizedData)
        }
    } else {
        Err(StoreError::UnrecognizedData)
    }
}

} // verus!
