//! The wire format of a record bucket.
//!
//! A bucket ([`StateEntryList`]) is stored as bytes: a 64-bit little-endian
//! count of records, then each record as its normalized key, a count of its
//! values, and the values themselves; strings travel as length-prefixed
//! UTF-8 and byte blobs as length-prefixed raw bytes. `spec_encode` and
//! `spec_decode` define the format mathematically; [`StateEntryList::into_bytes`]
//! and [`StateEntryList::from_bytes`] implement it, and
//! [`lemma_decode_encode`] shows the two sides agree.

use vstd::prelude::*;

use vstd::bytes::{
    spec_u32_from_le_bytes, spec_u32_to_le_bytes, spec_u64_from_le_bytes, spec_u64_to_le_bytes,
    u32_from_le_bytes, u32_to_le_bytes, u64_from_le_bytes, u64_to_le_bytes,
};
use vstd::slice::{slice_subrange, slice_to_vec};
use vstd::utf8::{decode_utf8, encode_utf8, valid_utf8};

use crate::error::SimpleStateError;
use crate::protocol::{StateEntry, StateEntryBuilder, StateEntryList, StateEntryListBuilder,
    StateEntryV, StateEntryValue, StateEntryValueBuilder, StateEntryValueV, ValueType, ValueV};

verus! {

broadcast use vstd::utf8::encode_utf8_valid_utf8, vstd::utf8::encode_utf8_decode_utf8;

/// The tag bytes that introduce each kind of value on the wire.
pub open spec fn spec_value_tag(v: ValueV) -> u8 {
    match v {
        ValueV::Int32(_) => 0u8,
        ValueV::Int64(_) => 1u8,
        ValueV::UInt32(_) => 2u8,
        ValueV::UInt64(_) => 3u8,
        ValueV::Str(_) => 4u8,
        ValueV::Bytes(_) => 5u8,
    }
}

/// A 64-bit little-endian integer on the wire.
pub open spec fn spec_enc_u64(n: u64) -> Seq<u8> {
    spec_u64_to_le_bytes(n)
}

/// A byte blob on the wire: its length, then its bytes.
pub open spec fn spec_enc_bytes(b: Seq<u8>) -> Seq<u8> {
    spec_enc_u64(b.len() as u64) + b
}

/// A string on the wire: its UTF-8 bytes as a blob.
pub open spec fn spec_enc_str(s: Seq<char>) -> Seq<u8> {
    spec_enc_bytes(encode_utf8(s))
}

/// A single value on the wire: a tag byte, then the payload.
pub open spec fn spec_enc_value(v: ValueV) -> Seq<u8> {
    seq![spec_value_tag(v)] + (match v {
        ValueV::Int32(x) => spec_u32_to_le_bytes(x as u32),
        ValueV::Int64(x) => spec_u64_to_le_bytes(x as u64),
        ValueV::UInt32(x) => spec_u32_to_le_bytes(x),
        ValueV::UInt64(x) => spec_u64_to_le_bytes(x),
        ValueV::Str(s) => spec_enc_str(s),
        ValueV::Bytes(b) => spec_enc_bytes(b),
    })
}

/// A named value on the wire: its name, then its value.
pub open spec fn spec_enc_value_entry(v: StateEntryValueV) -> Seq<u8> {
    spec_enc_str(v.key) + spec_enc_value(v.value)
}

/// A run of named values on the wire, one after the other.
pub open spec fn spec_enc_value_entries(vs: Seq<StateEntryValueV>) -> Seq<u8>
    decreases vs.len(),
{
    if vs.len() == 0 {
        Seq::empty()
    } else {
        spec_enc_value_entry(vs[0]) + spec_enc_value_entries(vs.drop_first())
    }
}

/// One record on the wire: its normalized key, the count of its values,
/// then the values.
pub open spec fn spec_enc_entry(e: StateEntryV) -> Seq<u8> {
    spec_enc_str(e.normalized_key) + spec_enc_u64(e.values.len() as u64) + spec_enc_value_entries(
        e.values,
    )
}

/// A run of records on the wire, one after the other.
pub open spec fn spec_enc_entries(es: Seq<StateEntryV>) -> Seq<u8>
    decreases es.len(),
{
    if es.len() == 0 {
        Seq::empty()
    } else {
        spec_enc_entry(es[0]) + spec_enc_entries(es.drop_first())
    }
}

/// A whole bucket on the wire: the count of records, then the records.
pub open spec fn spec_encode(es: Seq<StateEntryV>) -> Seq<u8> {
    spec_enc_u64(es.len() as u64) + spec_enc_entries(es)
}

/// Whether a value's variable-length payloads fit the wire's 64-bit length
/// fields. Values built in executable code always do.
pub open spec fn encodable_value(v: ValueV) -> bool {
    match v {
        ValueV::Str(s) => encode_utf8(s).len() <= u64::MAX,
        ValueV::Bytes(b) => b.len() <= u64::MAX,
        _ => true,
    }
}

pub open spec fn encodable_value_entry(v: StateEntryValueV) -> bool {
    &&& encode_utf8(v.key).len() <= u64::MAX
    &&& encodable_value(v.value)
}

pub open spec fn encodable_entry(e: StateEntryV) -> bool {
    &&& encode_utf8(e.normalized_key).len() <= u64::MAX
    &&& e.values.len() <= u64::MAX
    &&& forall|i: int| 0 <= i < e.values.len() ==> encodable_value_entry(#[trigger] e.values[i])
}

/// Whether a bucket's counts and lengths fit the wire's 64-bit fields.
pub open spec fn encodable(es: Seq<StateEntryV>) -> bool {
    &&& es.len() <= u64::MAX
    &&& forall|i: int| 0 <= i < es.len() ==> encodable_entry(#[trigger] es[i])
}

// ---------------------------------------------------------------------
// Decoding, mathematically: each function consumes a prefix of the bytes
// and returns what it read together with the remainder, or nothing when
// the bytes are malformed.
// ---------------------------------------------------------------------

pub open spec fn spec_dec_u64(b: Seq<u8>) -> Option<(u64, Seq<u8>)> {
    if b.len() >= 8 {
        Some((spec_u64_from_le_bytes(b.take(8)), b.skip(8)))
    } else {
        None
    }
}

pub open spec fn spec_dec_u32(b: Seq<u8>) -> Option<(u32, Seq<u8>)> {
    if b.len() >= 4 {
        Some((spec_u32_from_le_bytes(b.take(4)), b.skip(4)))
    } else {
        None
    }
}

pub open spec fn spec_dec_bytes(b: Seq<u8>) -> Option<(Seq<u8>, Seq<u8>)> {
    match spec_dec_u64(b) {
        None => None,
        Some((n, rest)) => if rest.len() >= n {
            Some((rest.take(n as int), rest.skip(n as int)))
        } else {
            None
        },
    }
}

pub open spec fn spec_dec_str(b: Seq<u8>) -> Option<(Seq<char>, Seq<u8>)> {
    match spec_dec_bytes(b) {
        None => None,
        Some((bs, rest)) => if valid_utf8(bs) {
            Some((decode_utf8(bs), rest))
        } else {
            None
        },
    }
}

pub open spec fn spec_dec_value(b: Seq<u8>) -> Option<(ValueV, Seq<u8>)> {
    if b.len() < 1 {
        None
    } else {
        let tag = b[0];
        let r = b.skip(1);
        if tag == 0u8 {
            match spec_dec_u32(r) {
                None => None,
                Some((x, rest)) => Some((ValueV::Int32(x as i32), rest)),
            }
        } else if tag == 1u8 {
            match spec_dec_u64(r) {
                None => None,
                Some((x, rest)) => Some((ValueV::Int64(x as i64), rest)),
            }
        } else if tag == 2u8 {
            match spec_dec_u32(r) {
                None => None,
                Some((x, rest)) => Some((ValueV::UInt32(x), rest)),
            }
        } else if tag == 3u8 {
            match spec_dec_u64(r) {
                None => None,
                Some((x, rest)) => Some((ValueV::UInt64(x), rest)),
            }
        } else if tag == 4u8 {
            match spec_dec_str(r) {
                None => None,
                Some((s, rest)) => Some((ValueV::Str(s), rest)),
            }
        } else if tag == 5u8 {
            match spec_dec_bytes(r) {
                None => None,
                Some((bs, rest)) => Some((ValueV::Bytes(bs), rest)),
            }
        } else {
            None
        }
    }
}

pub open spec fn spec_dec_value_entries(b: Seq<u8>, n: u64) -> Option<
    (Seq<StateEntryValueV>, Seq<u8>),
>
    decreases n,
{
    if n == 0 {
        Some((Seq::empty(), b))
    } else {
        match spec_dec_str(b) {
            None => None,
            Some((key, r1)) => match spec_dec_value(r1) {
                None => None,
                Some((value, r2)) => match spec_dec_value_entries(r2, (n - 1) as u64) {
                    None => None,
                    Some((tail, r3)) => Some(
                        (seq![StateEntryValueV { key, value }] + tail, r3),
                    ),
                },
            },
        }
    }
}

pub open spec fn spec_dec_entry(b: Seq<u8>) -> Option<(StateEntryV, Seq<u8>)> {
    match spec_dec_str(b) {
        None => None,
        Some((normalized_key, r1)) => match spec_dec_u64(r1) {
            None => None,
            Some((n, r2)) => match spec_dec_value_entries(r2, n) {
                None => None,
                Some((values, r3)) => Some((StateEntryV { normalized_key, values }, r3)),
            },
        },
    }
}

pub open spec fn spec_dec_entries(b: Seq<u8>, n: u64) -> Option<(Seq<StateEntryV>, Seq<u8>)>
    decreases n,
{
    if n == 0 {
        Some((Seq::empty(), b))
    } else {
        match spec_dec_entry(b) {
            None => None,
            Some((e, r1)) => match spec_dec_entries(r1, (n - 1) as u64) {
                None => None,
                Some((tail, r2)) => Some((seq![e] + tail, r2)),
            },
        }
    }
}

/// What a byte payload means: the bucket it spells, or nothing when it is
/// malformed (including trailing garbage).
pub open spec fn spec_decode(b: Seq<u8>) -> Option<Seq<StateEntryV>> {
    match spec_dec_u64(b) {
        None => None,
        Some((n, rest)) => match spec_dec_entries(rest, n) {
            None => None,
            Some((es, r2)) => if r2.len() == 0 {
                Some(es)
            } else {
                None
            },
        },
    }
}

// ---------------------------------------------------------------------
// Executable encoding.
// ---------------------------------------------------------------------

fn enc_u64(out: &mut Vec<u8>, n: u64)
    ensures
        final(out)@ == old(out)@ + spec_enc_u64(n),
{
    let mut bs = u64_to_le_bytes(n);
    out.append(&mut bs);
}

fn enc_bytes(out: &mut Vec<u8>, b: &[u8])
    ensures
        final(out)@ == old(out)@ + spec_enc_bytes(b@),
{
    enc_u64(out, b.len() as u64);
    let mut bv = slice_to_vec(b);
    out.append(&mut bv);
    proof {
        assert(out@ =~= old(out)@ + spec_enc_bytes(b@));
    }
}

fn enc_str(out: &mut Vec<u8>, s: &str)
    ensures
        final(out)@ == old(out)@ + spec_enc_str(s@),
{
    let bs = vstd::string::StrSliceExecFns::as_bytes_vec(s);
    enc_bytes(out, bs.as_slice());
}

fn enc_value(out: &mut Vec<u8>, v: &ValueType)
    ensures
        final(out)@ == old(out)@ + spec_enc_value(v@),
{
    match v {
        ValueType::Int32(x) => {
            out.push(0u8);
            let mut bs = u32_to_le_bytes(#[verifier::truncate] (*x as u32));
            out.append(&mut bs);
        },
        ValueType::Int64(x) => {
            out.push(1u8);
            let mut bs = u64_to_le_bytes(#[verifier::truncate] (*x as u64));
            out.append(&mut bs);
        },
        ValueType::UInt32(x) => {
            out.push(2u8);
            let mut bs = u32_to_le_bytes(*x);
            out.append(&mut bs);
        },
        ValueType::UInt64(x) => {
            out.push(3u8);
            let mut bs = u64_to_le_bytes(*x);
            out.append(&mut bs);
        },
        ValueType::String(s) => {
            out.push(4u8);
            enc_str(out, s.as_str());
        },
        ValueType::Bytes(b) => {
            out.push(5u8);
            enc_bytes(out, b.as_slice());
        },
    }
    proof {
        assert(out@ =~= old(out)@ + spec_enc_value(v@));
    }
}

/// Extending a run of named values by one appends its encoding.
proof fn lemma_enc_value_entries_snoc(vs: Seq<StateEntryValueV>, v: StateEntryValueV)
    ensures
        spec_enc_value_entries(vs.push(v)) == spec_enc_value_entries(vs) + spec_enc_value_entry(v),
    decreases vs.len(),
{
    if vs.len() == 0 {
        assert(vs.push(v)[0] == v);
        assert(vs.push(v).drop_first() =~= Seq::<StateEntryValueV>::empty());
        assert(spec_enc_value_entries(vs.push(v)) == spec_enc_value_entry(v)
            + spec_enc_value_entries(Seq::<StateEntryValueV>::empty()));
        assert(spec_enc_value_entries(Seq::<StateEntryValueV>::empty())
            == Seq::<u8>::empty());
        assert(spec_enc_value_entries(vs) == Seq::<u8>::empty());
        assert(spec_enc_value_entry(v) + Seq::<u8>::empty() =~= Seq::<u8>::empty()
            + spec_enc_value_entry(v));
    } else {
        assert(vs.push(v).drop_first() =~= vs.drop_first().push(v));
        lemma_enc_value_entries_snoc(vs.drop_first(), v);
        assert(vs.push(v)[0] == vs[0]);
        assert(spec_enc_value_entries(vs.push(v)) == spec_enc_value_entry(vs[0]) + (
        spec_enc_value_entries(vs.drop_first()) + spec_enc_value_entry(v)));
        assert(spec_enc_value_entries(vs) == spec_enc_value_entry(vs[0])
            + spec_enc_value_entries(vs.drop_first()));
        assert(spec_enc_value_entry(vs[0]) + (spec_enc_value_entries(vs.drop_first())
            + spec_enc_value_entry(v)) =~= (spec_enc_value_entry(vs[0])
            + spec_enc_value_entries(vs.drop_first())) + spec_enc_value_entry(v));
    }
}

/// Extending a run of records by one appends its encoding.
proof fn lemma_enc_entries_snoc(es: Seq<StateEntryV>, e: StateEntryV)
    ensures
        spec_enc_entries(es.push(e)) == spec_enc_entries(es) + spec_enc_entry(e),
    decreases es.len(),
{
    if es.len() == 0 {
        assert(es.push(e)[0] == e);
        assert(es.push(e).drop_first() =~= Seq::<StateEntryV>::empty());
        assert(spec_enc_entries(es.push(e)) == spec_enc_entry(e) + spec_enc_entries(
            Seq::<StateEntryV>::empty(),
        ));
        assert(spec_enc_entries(Seq::<StateEntryV>::empty()) == Seq::<u8>::empty());
        assert(spec_enc_entries(es) == Seq::<u8>::empty());
        assert(spec_enc_entry(e) + Seq::<u8>::empty() =~= Seq::<u8>::empty() + spec_enc_entry(e));
    } else {
        assert(es.push(e).drop_first() =~= es.drop_first().push(e));
        lemma_enc_entries_snoc(es.drop_first(), e);
        assert(es.push(e)[0] == es[0]);
        assert(spec_enc_entries(es.push(e)) == spec_enc_entry(es[0]) + (spec_enc_entries(
            es.drop_first(),
        ) + spec_enc_entry(e)));
        assert(spec_enc_entries(es) == spec_enc_entry(es[0]) + spec_enc_entries(es.drop_first()));
        assert(spec_enc_entry(es[0]) + (spec_enc_entries(es.drop_first()) + spec_enc_entry(e)) =~= (
        spec_enc_entry(es[0]) + spec_enc_entries(es.drop_first())) + spec_enc_entry(e));
    }
}

fn enc_entry(out: &mut Vec<u8>, e: &StateEntry)
    ensures
        final(out)@ == old(out)@ + spec_enc_entry(e@),
{
    enc_str(out, e.normalized_key().as_str());
    let values = e.state_entry_values();
    enc_u64(out, values.len() as u64);
    let ghost mid = out@;
    let mut i: usize = 0;
    while i < values.len()
        invariant
            0 <= i <= values.len(),
            values.deep_view() == e@.values,
            values.deep_view().len() == values.len(),
            out@ == mid + spec_enc_value_entries(e@.values.take(i as int)),
        decreases values.len() - i,
    {
        let v = &values[i];
        enc_str(out, v.key().as_str());
        enc_value(out, v.value());
        proof {
            lemma_enc_value_entries_snoc(e@.values.take(i as int), e@.values[i as int]);
            assert(e@.values.take(i as int).push(e@.values[i as int]) =~= e@.values.take(
                i as int + 1,
            ));
            assert(out@ =~= mid + spec_enc_value_entries(e@.values.take(i as int + 1)));
        }
        i += 1;
    }
    proof {
        assert(e@.values.take(values.len() as int) =~= e@.values);
        assert(out@ =~= old(out)@ + spec_enc_entry(e@));
    }
}

impl StateEntryList {
    /// Serializes this bucket into the byte payload stored at its address.
    pub fn into_bytes(self) -> (r: Result<Vec<u8>, SimpleStateError>)
        ensures
            r matches Ok(b) && b@ == spec_encode(self@),
    {
        let mut out: Vec<u8> = Vec::new();
        let entries = self.entries();
        enc_u64(&mut out, entries.len() as u64);
        let ghost mid = out@;
        let mut i: usize = 0;
        while i < entries.len()
            invariant
                0 <= i <= entries.len(),
                entries.deep_view() == self@,
                entries.deep_view().len() == entries.len(),
                out@ == mid + spec_enc_entries(self@.take(i as int)),
            decreases entries.len() - i,
        {
            enc_entry(&mut out, &entries[i]);
            proof {
                lemma_enc_entries_snoc(self@.take(i as int), self@[i as int]);
                assert(self@.take(i as int).push(self@[i as int]) =~= self@.take(i as int + 1));
                assert(out@ =~= mid + spec_enc_entries(self@.take(i as int + 1)));
            }
            i += 1;
        }
        proof {
            assert(self@.take(entries.len() as int) =~= self@);
            assert(out@ =~= spec_encode(self@));
        }
        Ok(out)
    }
}


// ---------------------------------------------------------------------
// Executable decoding: a parser over a byte slice and a position, each
// step tied to its mathematical counterpart on the remaining bytes.
// ---------------------------------------------------------------------

/// Relies on std's String::from_utf8: it succeeds exactly on valid UTF-8
/// and returns the string those bytes spell, so re-encoding the result
/// gives the input back.
#[verifier::external_body]
pub(crate) fn string_from_utf8(bytes: Vec<u8>) -> (r: Option<String>)
    ensures
        match r {
            Some(s) => encode_utf8(s@) == bytes@,
            None => !valid_utf8(bytes@),
        },
{
    String::from_utf8(bytes).ok()
}

fn dec_u64(b: &[u8], pos: usize) -> (r: Option<(u64, usize)>)
    requires
        pos <= b@.len(),
    ensures
        match r {
            Some(v) => {
                &&& spec_dec_u64(b@.skip(pos as int)) == Some((v.0, b@.skip(v.1 as int)))
                &&& pos <= v.1 <= b@.len()
            },
            None => spec_dec_u64(b@.skip(pos as int)) is None,
        },
{
    if b.len() - pos >= 8 {
        let sub = slice_subrange(b, pos, pos + 8);
        let n = u64_from_le_bytes(sub);
        proof {
            assert(b@.skip(pos as int).take(8) =~= b@.subrange(pos as int, pos + 8));
            assert(b@.skip(pos as int).skip(8) =~= b@.skip(pos + 8));
        }
        Some((n, pos + 8))
    } else {
        None
    }
}

fn dec_u32(b: &[u8], pos: usize) -> (r: Option<(u32, usize)>)
    requires
        pos <= b@.len(),
    ensures
        match r {
            Some(v) => {
                &&& spec_dec_u32(b@.skip(pos as int)) == Some((v.0, b@.skip(v.1 as int)))
                &&& pos <= v.1 <= b@.len()
            },
            None => spec_dec_u32(b@.skip(pos as int)) is None,
        },
{
    if b.len() - pos >= 4 {
        let sub = slice_subrange(b, pos, pos + 4);
        let n = u32_from_le_bytes(sub);
        proof {
            assert(b@.skip(pos as int).take(4) =~= b@.subrange(pos as int, pos + 4));
            assert(b@.skip(pos as int).skip(4) =~= b@.skip(pos + 4));
        }
        Some((n, pos + 4))
    } else {
        None
    }
}

fn dec_bytes(b: &[u8], pos: usize) -> (r: Option<(Vec<u8>, usize)>)
    requires
        pos <= b@.len(),
    ensures
        match r {
            Some(v) => {
                &&& spec_dec_bytes(b@.skip(pos as int)) == Some((v.0@, b@.skip(v.1 as int)))
                &&& pos <= v.1 <= b@.len()
            },
            None => spec_dec_bytes(b@.skip(pos as int)) is None,
        },
{
    match dec_u64(b, pos) {
        None => None,
        Some((n, p)) => {
            if n <= (b.len() - p) as u64 {
                let len = n as usize;
                let v = slice_to_vec(slice_subrange(b, p, p + len));
                proof {
                    assert(b@.skip(p as int).take(n as int) =~= b@.subrange(p as int, p + n));
                    assert(b@.skip(p as int).skip(n as int) =~= b@.skip(p + n));
                }
                Some((v, p + len))
            } else {
                None
            }
        },
    }
}

fn dec_str(b: &[u8], pos: usize) -> (r: Option<(String, usize)>)
    requires
        pos <= b@.len(),
    ensures
        match r {
            Some(v) => {
                &&& spec_dec_str(b@.skip(pos as int)) == Some((v.0@, b@.skip(v.1 as int)))
                &&& pos <= v.1 <= b@.len()
            },
            None => spec_dec_str(b@.skip(pos as int)) is None,
        },
{
    match dec_bytes(b, pos) {
        None => None,
        Some((bs, p)) => {
            let ghost bsv = bs@;
            match string_from_utf8(bs) {
                None => None,
                Some(s) => {
                    proof {
                        assert(decode_utf8(encode_utf8(s@)) == s@);
                    }
                    Some((s, p))
                },
            }
        },
    }
}

fn dec_value(b: &[u8], pos: usize) -> (r: Option<(ValueType, usize)>)
    requires
        pos <= b@.len(),
    ensures
        match r {
            Some(v) => {
                &&& spec_dec_value(b@.skip(pos as int)) == Some((v.0@, b@.skip(v.1 as int)))
                &&& pos <= v.1 <= b@.len()
            },
            None => spec_dec_value(b@.skip(pos as int)) is None,
        },
{
    if pos >= b.len() {
        return None;
    }
    let tag = b[pos];
    proof {
        assert(b@.skip(pos as int)[0] == b@[pos as int]);
        assert(b@.skip(pos as int).skip(1) =~= b@.skip(pos as int + 1));
    }
    let p = pos + 1;
    if tag == 0u8 {
        match dec_u32(b, p) {
            None => None,
            Some((x, p2)) => Some((ValueType::Int32(#[verifier::truncate] (x as i32)), p2)),
        }
    } else if tag == 1u8 {
        match dec_u64(b, p) {
            None => None,
            Some((x, p2)) => Some((ValueType::Int64(#[verifier::truncate] (x as i64)), p2)),
        }
    } else if tag == 2u8 {
        match dec_u32(b, p) {
            None => None,
            Some((x, p2)) => Some((ValueType::UInt32(x), p2)),
        }
    } else if tag == 3u8 {
        match dec_u64(b, p) {
            None => None,
            Some((x, p2)) => Some((ValueType::UInt64(x), p2)),
        }
    } else if tag == 4u8 {
        match dec_str(b, p) {
            None => None,
            Some((s, p2)) => Some((ValueType::String(s), p2)),
        }
    } else if tag == 5u8 {
        match dec_bytes(b, p) {
            None => None,
            Some((bs, p2)) => Some((ValueType::Bytes(bs), p2)),
        }
    } else {
        None
    }
}

fn dec_value_entries(b: &[u8], pos: usize, n: u64) -> (r: Option<(Vec<StateEntryValue>, usize)>)
    requires
        pos <= b@.len(),
    ensures
        match r {
            Some(v) => {
                &&& spec_dec_value_entries(b@.skip(pos as int), n) == Some(
                    (v.0.deep_view(), b@.skip(v.1 as int)),
                )
                &&& pos <= v.1 <= b@.len()
            },
            None => spec_dec_value_entries(b@.skip(pos as int), n) is None,
        },
{
    let mut acc: Vec<StateEntryValue> = Vec::new();
    let mut p = pos;
    let mut rem = n;
    proof {
        assert(acc.deep_view() =~= Seq::<StateEntryValueV>::empty());
    }
    while rem > 0
        invariant
            pos <= p <= b@.len(),
            0 <= rem <= n,
            forall|tail: Seq<StateEntryValueV>, rest: Seq<u8>|
                spec_dec_value_entries(b@.skip(p as int), rem) == Some::<
                    (Seq<StateEntryValueV>, Seq<u8>),
                >((tail, rest)) ==> spec_dec_value_entries(b@.skip(pos as int), n) == Some::<
                    (Seq<StateEntryValueV>, Seq<u8>),
                >((acc.deep_view() + tail, rest)),
            spec_dec_value_entries(b@.skip(p as int), rem) is None ==> spec_dec_value_entries(
                b@.skip(pos as int),
                n,
            ) is None,
        decreases rem,
    {
        let ghost p_at_start = p;
        let ghost rem_at_start = rem;
        let ghost acc_at_start = acc.deep_view();
        let key = match dec_str(b, p) {
            None => {
                return None;
            },
            Some((k, p2)) => {
                p = p2;
                k
            },
        };
        let value = match dec_value(b, p) {
            None => {
                return None;
            },
            Some((v, p2)) => {
                p = p2;
                v
            },
        };
        let ghost keyv = key@;
        let ghost valuev = value@;
        acc.push(StateEntryValueBuilder::new().with_key(key).with_value(value).build().unwrap());
        rem = rem - 1;
        proof {
            assert(acc.deep_view() =~= acc_at_start.push(
                StateEntryValueV { key: keyv, value: valuev },
            ));
            assert forall|tail: Seq<StateEntryValueV>, rest: Seq<u8>|
                spec_dec_value_entries(b@.skip(p as int), rem) == Some::<
                    (Seq<StateEntryValueV>, Seq<u8>),
                >((tail, rest)) implies spec_dec_value_entries(b@.skip(pos as int), n) == Some::<
                (Seq<StateEntryValueV>, Seq<u8>),
            >((acc.deep_view() + tail, rest)) by {
                assert(spec_dec_value_entries(b@.skip(p_at_start as int), rem_at_start) == Some::<
                    (Seq<StateEntryValueV>, Seq<u8>),
                >((seq![StateEntryValueV { key: keyv, value: valuev }] + tail, rest)));
                assert(acc_at_start + (seq![StateEntryValueV { key: keyv, value: valuev }] + tail)
                    =~= acc.deep_view() + tail);
            }
            if spec_dec_value_entries(b@.skip(p as int), rem) is None {
                assert(spec_dec_value_entries(b@.skip(p_at_start as int), rem_at_start) is None);
            }
        }
    }
    proof {
        assert(spec_dec_value_entries(b@.skip(p as int), 0) == Some::<
            (Seq<StateEntryValueV>, Seq<u8>),
        >((Seq::<StateEntryValueV>::empty(), b@.skip(p as int))));
        assert(acc.deep_view() + Seq::<StateEntryValueV>::empty() =~= acc.deep_view());
    }
    Some((acc, p))
}

fn dec_entry(b: &[u8], pos: usize) -> (r: Option<(StateEntry, usize)>)
    requires
        pos <= b@.len(),
    ensures
        match r {
            Some(v) => {
                &&& spec_dec_entry(b@.skip(pos as int)) == Some((v.0@, b@.skip(v.1 as int)))
                &&& pos <= v.1 <= b@.len()
            },
            None => spec_dec_entry(b@.skip(pos as int)) is None,
        },
{
    let (normalized_key, p1) = match dec_str(b, pos) {
        None => {
            return None;
        },
        Some(v) => v,
    };
    let (n, p2) = match dec_u64(b, p1) {
        None => {
            return None;
        },
        Some(v) => v,
    };
    let (values, p3) = match dec_value_entries(b, p2, n) {
        None => {
            return None;
        },
        Some(v) => v,
    };
    let entry = StateEntryBuilder::new()
        .with_normalized_key(normalized_key)
        .with_state_entry_values(values)
        .build()
        .unwrap();
    Some((entry, p3))
}

impl StateEntryList {
    /// Deserializes the byte payload stored at one address back into the
    /// bucket it spells; fails exactly on malformed bytes.
    pub fn from_bytes(bytes: &[u8]) -> (r: Result<StateEntryList, SimpleStateError>)
        ensures
            match r {
                Ok(l) => spec_decode(bytes@) == Some(l@),
                Err(e) => {
                    &&& spec_decode(bytes@) is None
                    &&& e matches SimpleStateError::SerializationError(_)
                },
            },
    {
        let err_msg = "Unable to parse state entry list";
        let (n, p1) = match dec_u64(bytes, 0) {
            None => {
                proof {
                    assert(bytes@.skip(0) =~= bytes@);
                }
                return Err(SimpleStateError::SerializationError(err_msg.to_owned()));
            },
            Some(v) => v,
        };
        proof {
            assert(bytes@.skip(0) =~= bytes@);
        }
        let mut acc: Vec<StateEntry> = Vec::new();
        let mut p = p1;
        let mut rem = n;
        proof {
            assert(acc.deep_view() =~= Seq::<StateEntryV>::empty());
        }
        while rem > 0
            invariant
                p <= bytes@.len(),
                spec_dec_u64(bytes@) == Some((n, bytes@.skip(p1 as int))),
                forall|tail: Seq<StateEntryV>, rest: Seq<u8>|
                    spec_dec_entries(bytes@.skip(p as int), rem) == Some::<
                        (Seq<StateEntryV>, Seq<u8>),
                    >((tail, rest)) ==> spec_dec_entries(bytes@.skip(p1 as int), n) == Some::<
                        (Seq<StateEntryV>, Seq<u8>),
                    >((acc.deep_view() + tail, rest)),
                spec_dec_entries(bytes@.skip(p as int), rem) is None ==> spec_dec_entries(
                    bytes@.skip(p1 as int),
                    n,
                ) is None,
            decreases rem,
        {
            let ghost p_at_start = p;
            let ghost rem_at_start = rem;
            let ghost acc_at_start = acc.deep_view();
            let entry = match dec_entry(bytes, p) {
                None => {
                    proof {
                        assert(spec_dec_entries(bytes@.skip(p as int), rem) is None);
                        assert(spec_dec_entries(bytes@.skip(p1 as int), n) is None);
                        assert(spec_decode(bytes@) is None);
                    }
                    return Err(SimpleStateError::SerializationError(err_msg.to_owned()));
                },
                Some((e, p2)) => {
                    p = p2;
                    e
                },
            };
            let ghost entryv = entry@;
            acc.push(entry);
            rem = rem - 1;
            proof {
                assert(acc.deep_view() =~= acc_at_start.push(entryv));
                assert forall|tail: Seq<StateEntryV>, rest: Seq<u8>|
                    spec_dec_entries(bytes@.skip(p as int), rem) == Some::<
                        (Seq<StateEntryV>, Seq<u8>),
                    >((tail, rest)) implies spec_dec_entries(bytes@.skip(p1 as int), n) == Some::<
                    (Seq<StateEntryV>, Seq<u8>),
                >((acc.deep_view() + tail, rest)) by {
                    assert(spec_dec_entries(bytes@.skip(p_at_start as int), rem_at_start)
                        == Some::<(Seq<StateEntryV>, Seq<u8>)>((seq![entryv] + tail, rest)));
                    assert(acc_at_start + (seq![entryv] + tail) =~= acc.deep_view() + tail);
                }
                if spec_dec_entries(bytes@.skip(p as int), rem) is None {
                    assert(spec_dec_entries(bytes@.skip(p_at_start as int), rem_at_start) is None);
                }
            }
        }
        proof {
            assert(spec_dec_entries(bytes@.skip(p as int), 0) == Some::<
                (Seq<StateEntryV>, Seq<u8>),
            >((Seq::<StateEntryV>::empty(), bytes@.skip(p as int))));
            assert(acc.deep_view() + Seq::<StateEntryV>::empty() =~= acc.deep_view());
        }
        proof {
            assert(spec_dec_entries(bytes@.skip(p1 as int), n) == Some::<
                (Seq<StateEntryV>, Seq<u8>),
            >((acc.deep_view(), bytes@.skip(p as int))));
        }
        if p != bytes.len() {
            proof {
                assert(bytes@.skip(p as int).len() > 0);
                assert(spec_decode(bytes@) is None);
            }
            return Err(SimpleStateError::SerializationError(err_msg.to_owned()));
        }
        proof {
            assert(bytes@.skip(p as int).len() == 0);
        }
        let list = StateEntryListBuilder::new().with_state_entries(acc).build().unwrap();
        Ok(list)
    }
}



// ---------------------------------------------------------------------
// The two sides of the codec agree: decoding an encoding gives the
// bucket back, and whatever decodes is itself encodable again.
// ---------------------------------------------------------------------

proof fn lemma_dec_enc_u64(n: u64, tail: Seq<u8>)
    ensures
        spec_dec_u64(spec_enc_u64(n) + tail) == Some((n, tail)),
{
    vstd::bytes::lemma_auto_spec_u64_to_from_le_bytes();
    assert((spec_enc_u64(n) + tail).take(8) =~= spec_enc_u64(n));
    assert((spec_enc_u64(n) + tail).skip(8) =~= tail);
}

proof fn lemma_dec_enc_u32(n: u32, tail: Seq<u8>)
    ensures
        spec_dec_u32(spec_u32_to_le_bytes(n) + tail) == Some((n, tail)),
{
    vstd::bytes::lemma_auto_spec_u32_to_from_le_bytes();
    assert((spec_u32_to_le_bytes(n) + tail).take(4) =~= spec_u32_to_le_bytes(n));
    assert((spec_u32_to_le_bytes(n) + tail).skip(4) =~= tail);
}

proof fn lemma_dec_enc_bytes(b: Seq<u8>, tail: Seq<u8>)
    requires
        b.len() <= u64::MAX,
    ensures
        spec_dec_bytes(spec_enc_bytes(b) + tail) == Some((b, tail)),
{
    assert(spec_enc_bytes(b) + tail =~= spec_enc_u64(b.len() as u64) + (b + tail));
    lemma_dec_enc_u64(b.len() as u64, b + tail);
    assert((b + tail).take(b.len() as int) =~= b);
    assert((b + tail).skip(b.len() as int) =~= tail);
}

proof fn lemma_dec_enc_str(s: Seq<char>, tail: Seq<u8>)
    requires
        encode_utf8(s).len() <= u64::MAX,
    ensures
        spec_dec_str(spec_enc_str(s) + tail) == Some((s, tail)),
{
    lemma_dec_enc_bytes(encode_utf8(s), tail);
}

proof fn lemma_i32_cast_roundtrip(x: i32)
    ensures
        ((x as u32) as i32) == x,
{
    assert(((x as u32) as i32) == x) by (bit_vector);
}

proof fn lemma_i64_cast_roundtrip(x: i64)
    ensures
        ((x as u64) as i64) == x,
{
    assert(((x as u64) as i64) == x) by (bit_vector);
}

proof fn lemma_dec_enc_value(v: ValueV, tail: Seq<u8>)
    requires
        encodable_value(v),
    ensures
        spec_dec_value(spec_enc_value(v) + tail) == Some((v, tail)),
{
    let b = spec_enc_value(v) + tail;
    assert(b[0] == spec_value_tag(v));
    match v {
        ValueV::Int32(x) => {
            assert(b.skip(1) =~= spec_u32_to_le_bytes(x as u32) + tail);
            lemma_dec_enc_u32(x as u32, tail);
            lemma_i32_cast_roundtrip(x);
        },
        ValueV::Int64(x) => {
            assert(b.skip(1) =~= spec_enc_u64(x as u64) + tail);
            lemma_dec_enc_u64(x as u64, tail);
            lemma_i64_cast_roundtrip(x);
        },
        ValueV::UInt32(x) => {
            assert(b.skip(1) =~= spec_u32_to_le_bytes(x) + tail);
            lemma_dec_enc_u32(x, tail);
        },
        ValueV::UInt64(x) => {
            assert(b.skip(1) =~= spec_enc_u64(x) + tail);
            lemma_dec_enc_u64(x, tail);
        },
        ValueV::Str(s) => {
            assert(b.skip(1) =~= spec_enc_str(s) + tail);
            lemma_dec_enc_str(s, tail);
        },
        ValueV::Bytes(bs) => {
            assert(b.skip(1) =~= spec_enc_bytes(bs) + tail);
            lemma_dec_enc_bytes(bs, tail);
        },
    }
}

proof fn lemma_dec_enc_value_entries(vs: Seq<StateEntryValueV>, tail: Seq<u8>)
    requires
        vs.len() <= u64::MAX,
        forall|i: int| 0 <= i < vs.len() ==> encodable_value_entry(#[trigger] vs[i]),
    ensures
        spec_dec_value_entries(spec_enc_value_entries(vs) + tail, vs.len() as u64) == Some(
            (vs, tail),
        ),
    decreases vs.len(),
{
    if vs.len() == 0 {
        assert(spec_enc_value_entries(vs) + tail =~= tail);
        assert(spec_dec_value_entries(tail, 0) == Some((Seq::<StateEntryValueV>::empty(), tail)));
        assert(vs =~= Seq::<StateEntryValueV>::empty());
    } else {
        let v0 = vs[0];
        let rest = vs.drop_first();
        let enc_rest = spec_enc_value_entries(rest);
        assert(spec_enc_value_entries(vs) + tail =~= spec_enc_str(v0.key) + (spec_enc_value(
            v0.value,
        ) + (enc_rest + tail)));
        lemma_dec_enc_str(v0.key, spec_enc_value(v0.value) + (enc_rest + tail));
        lemma_dec_enc_value(v0.value, enc_rest + tail);
        assert(forall|i: int|
            0 <= i < rest.len() ==> encodable_value_entry(#[trigger] rest[i]) && rest[i] == vs[i
                + 1]);
        lemma_dec_enc_value_entries(rest, tail);
        let n = vs.len() as u64;
        assert(spec_dec_value_entries(spec_enc_value_entries(vs) + tail, n) == Some(
            (seq![StateEntryValueV { key: v0.key, value: v0.value }] + rest, tail),
        ));
        assert(StateEntryValueV { key: v0.key, value: v0.value } == v0);
        assert(seq![v0] + rest =~= vs);
    }
}

proof fn lemma_dec_enc_entry(e: StateEntryV, tail: Seq<u8>)
    requires
        encodable_entry(e),
    ensures
        spec_dec_entry(spec_enc_entry(e) + tail) == Some((e, tail)),
{
    let count = spec_enc_u64(e.values.len() as u64);
    let enc_vals = spec_enc_value_entries(e.values);
    assert(spec_enc_entry(e) + tail =~= spec_enc_str(e.normalized_key) + (count + (enc_vals
        + tail)));
    lemma_dec_enc_str(e.normalized_key, count + (enc_vals + tail));
    lemma_dec_enc_u64(e.values.len() as u64, enc_vals + tail);
    lemma_dec_enc_value_entries(e.values, tail);
    assert(StateEntryV { normalized_key: e.normalized_key, values: e.values } == e);
}

proof fn lemma_dec_enc_entries(es: Seq<StateEntryV>, tail: Seq<u8>)
    requires
        es.len() <= u64::MAX,
        forall|i: int| 0 <= i < es.len() ==> encodable_entry(#[trigger] es[i]),
    ensures
        spec_dec_entries(spec_enc_entries(es) + tail, es.len() as u64) == Some((es, tail)),
    decreases es.len(),
{
    if es.len() == 0 {
        assert(spec_enc_entries(es) + tail =~= tail);
        assert(spec_dec_entries(tail, 0) == Some((Seq::<StateEntryV>::empty(), tail)));
        assert(es =~= Seq::<StateEntryV>::empty());
    } else {
        let e0 = es[0];
        let rest = es.drop_first();
        assert(spec_enc_entries(es) + tail =~= spec_enc_entry(e0) + (spec_enc_entries(rest)
            + tail));
        lemma_dec_enc_entry(e0, spec_enc_entries(rest) + tail);
        assert(forall|i: int|
            0 <= i < rest.len() ==> encodable_entry(#[trigger] rest[i]) && rest[i] == es[i + 1]);
        lemma_dec_enc_entries(rest, tail);
        assert(spec_dec_entries(spec_enc_entries(es) + tail, es.len() as u64) == Some(
            (seq![e0] + rest, tail),
        ));
        assert(seq![e0] + rest =~= es);
    }
}

/// Law: the codec round-trips. Decoding the encoding of any bucket whose
/// counts and lengths fit the wire's 64-bit fields gives exactly that
/// bucket back.
pub proof fn lemma_decode_encode(es: Seq<StateEntryV>)
    requires
        encodable(es),
    ensures
        spec_decode(spec_encode(es)) == Some(es),
{
    assert(spec_encode(es) =~= spec_enc_u64(es.len() as u64) + spec_enc_entries(es));
    lemma_dec_enc_u64(es.len() as u64, spec_enc_entries(es));
    assert(spec_enc_entries(es) =~= spec_enc_entries(es) + Seq::<u8>::empty());
    lemma_dec_enc_entries(es, Seq::<u8>::empty());
}

proof fn lemma_dec_value_encodable(b: Seq<u8>)
    ensures
        spec_dec_value(b) matches Some(v) ==> encodable_value(v.0),
{
    if b.len() >= 1 && b[0] == 4u8 {
        let r = b.skip(1);
        if spec_dec_str(r) is Some {
            let (bs, _rest) = spec_dec_bytes(r).unwrap();
            vstd::utf8::decode_utf8_encode_utf8(bs);
        }
    }
}

proof fn lemma_dec_value_entries_encodable(b: Seq<u8>, n: u64)
    ensures
        spec_dec_value_entries(b, n) matches Some(v) ==> {
            &&& v.0.len() == n
            &&& forall|i: int| 0 <= i < v.0.len() ==> encodable_value_entry(#[trigger] v.0[i])
        },
    decreases n,
{
    if n == 0 {
    } else {
        if spec_dec_str(b) is Some {
            let (key, r1) = spec_dec_str(b).unwrap();
            let (bs, _rest) = spec_dec_bytes(b).unwrap();
            if spec_dec_value(r1) is Some {
                let (value, r2) = spec_dec_value(r1).unwrap();
                lemma_dec_value_encodable(r1);
                vstd::utf8::decode_utf8_encode_utf8(bs);
                lemma_dec_value_entries_encodable(r2, (n - 1) as u64);
            }
        }
    }
}

proof fn lemma_dec_entry_encodable(b: Seq<u8>)
    ensures
        spec_dec_entry(b) matches Some(v) ==> encodable_entry(v.0),
{
    if spec_dec_str(b) is Some {
        let (key, r1) = spec_dec_str(b).unwrap();
        let (bs, _rest) = spec_dec_bytes(b).unwrap();
        vstd::utf8::decode_utf8_encode_utf8(bs);
        if spec_dec_u64(r1) is Some {
            let (n, r2) = spec_dec_u64(r1).unwrap();
            lemma_dec_value_entries_encodable(r2, n);
        }
    }
}

proof fn lemma_dec_entries_encodable(b: Seq<u8>, n: u64)
    ensures
        spec_dec_entries(b, n) matches Some(v) ==> {
            &&& v.0.len() == n
            &&& forall|i: int| 0 <= i < v.0.len() ==> encodable_entry(#[trigger] v.0[i])
        },
    decreases n,
{
    if n == 0 {
    } else {
        if spec_dec_entry(b) is Some {
            let (e, r1) = spec_dec_entry(b).unwrap();
            lemma_dec_entry_encodable(b);
            lemma_dec_entries_encodable(r1, (n - 1) as u64);
        }
    }
}

/// Law: whatever decodes can be encoded again. Every bucket that some byte
/// payload spells has counts and lengths that fit the wire format.
pub proof fn lemma_decode_encodable(b: Seq<u8>)
    ensures
        spec_decode(b) matches Some(es) ==> encodable(es),
{
    if spec_dec_u64(b) is Some {
        let (n, rest) = spec_dec_u64(b).unwrap();
        lemma_dec_entries_encodable(rest, n);
    }
}


} // verus!
