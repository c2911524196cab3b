use vstd::prelude::*;
use vstd::utf8::{decode_utf8, encode_utf8_decode_utf8};

use crate::rule_vector::{RuleVector, RuleVectorView, SLOT_VALUES};
use crate::text::utf8_of;

verus! {

broadcast use vstd::seq_lib::group_seq_properties;

/// Bytes of one encoded anchor block: four slots of 512 four-byte values and
/// an eight-byte count.
pub const RULE_VECTOR_BYTES: usize = 8224;

/// Little-endian bytes of a `u32`.
pub open spec fn u32_le(v: u32) -> Seq<u8> {
    seq![v as u8, (v >> 8u32) as u8, (v >> 16u32) as u8, (v >> 24u32) as u8]
}

/// Little-endian bytes of a `u64`.
pub open spec fn u64_le(v: u64) -> Seq<u8> {
    seq![
        v as u8,
        (v >> 8u64) as u8,
        (v >> 16u64) as u8,
        (v >> 24u64) as u8,
        (v >> 32u64) as u8,
        (v >> 40u64) as u8,
        (v >> 48u64) as u8,
        (v >> 56u64) as u8,
    ]
}

/// The `u32` whose little-endian bytes begin `b`.
pub open spec fn u32_from_le(b: Seq<u8>) -> u32 {
    (b[0] as u32) | ((b[1] as u32) << 8u32) | ((b[2] as u32) << 16u32) | ((b[3] as u32) << 24u32)
}

/// The `u64` whose little-endian bytes begin `b`.
pub open spec fn u64_from_le(b: Seq<u8>) -> u64 {
    (b[0] as u64) | ((b[1] as u64) << 8u64) | ((b[2] as u64) << 16u64) | ((b[3] as u64) << 24u64)
        | ((b[4] as u64) << 32u64) | ((b[5] as u64) << 40u64) | ((b[6] as u64) << 48u64) | ((
    b[7] as u64) << 56u64)
}

pub proof fn lemma_u32_le_round_trip(v: u32)
    ensures
        u32_from_le(u32_le(v)) == v,
{
    let b = u32_le(v);
    assert(((v as u8) as u32) | ((((v >> 8u32) as u8) as u32) << 8u32) | ((((v >> 16u32) as u8)
        as u32) << 16u32) | ((((v >> 24u32) as u8) as u32) << 24u32) == v) by (bit_vector);
}

pub proof fn lemma_u64_le_round_trip(v: u64)
    ensures
        u64_from_le(u64_le(v)) == v,
{
    assert(((v as u8) as u64) | ((((v >> 8u64) as u8) as u64) << 8u64) | ((((v >> 16u64) as u8)
        as u64) << 16u64) | ((((v >> 24u64) as u8) as u64) << 24u64) | ((((v >> 32u64) as u8)
        as u64) << 32u64) | ((((v >> 40u64) as u8) as u64) << 40u64) | ((((v >> 48u64) as u8)
        as u64) << 48u64) | ((((v >> 56u64) as u8) as u64) << 56u64) == v) by (bit_vector);
}

/// The values of `s`, four little-endian bytes each.
pub open spec fn u32s_le(s: Seq<u32>) -> Seq<u8>
    decreases s.len(),
{
    if s.len() == 0 {
        Seq::empty()
    } else {
        u32s_le(s.drop_last()) + u32_le(s.last())
    }
}

/// The `u32` values of `b`, four little-endian bytes each.
pub open spec fn u32s_from_le(b: Seq<u8>) -> Seq<u32>
    decreases b.len(),
{
    if b.len() < 4 {
        Seq::empty()
    } else {
        u32s_from_le(b.take(b.len() - 4)).push(u32_from_le(b.skip(b.len() - 4)))
    }
}

pub proof fn lemma_u32s_len(s: Seq<u32>)
    ensures
        u32s_le(s).len() == 4 * s.len(),
    decreases s.len(),
{
    if s.len() > 0 {
        lemma_u32s_len(s.drop_last());
    }
}

pub proof fn lemma_u32s_round_trip(s: Seq<u32>)
    ensures
        u32s_from_le(u32s_le(s)) == s,
    decreases s.len(),
{
    if s.len() > 0 {
        let b = u32s_le(s);
        lemma_u32s_len(s);
        lemma_u32s_len(s.drop_last());
        assert(b.take(b.len() - 4) =~= u32s_le(s.drop_last()));
        assert(b.skip(b.len() - 4) =~= u32_le(s.last()));
        lemma_u32s_round_trip(s.drop_last());
        lemma_u32_le_round_trip(s.last());
        assert(s.drop_last().push(s.last()) =~= s);
    }
}

/// The warm-file encoding of an anchor block: for each slot in the order
/// action, resource, data, risk, its values then its count as a `u64`.
#[verifier::opaque]
pub open spec fn rule_vector_bytes(v: RuleVectorView) -> Seq<u8> {
    u32s_le(v.action_anchors) + u64_le(v.action_count as u64) + u32s_le(v.resource_anchors)
        + u64_le(v.resource_count as u64) + u32s_le(v.data_anchors) + u64_le(
        v.data_count as u64,
    ) + u32s_le(v.risk_anchors) + u64_le(v.risk_count as u64)
}

/// The anchor block that `RULE_VECTOR_BYTES` bytes encode.
#[verifier::opaque]
pub open spec fn rule_vector_from_bytes(b: Seq<u8>) -> RuleVectorView {
    RuleVectorView {
        action_anchors: u32s_from_le(b.subrange(0, 2048)),
        action_count: u64_from_le(b.subrange(2048, 2056)) as usize,
        resource_anchors: u32s_from_le(b.subrange(2056, 4104)),
        resource_count: u64_from_le(b.subrange(4104, 4112)) as usize,
        data_anchors: u32s_from_le(b.subrange(4112, 6160)),
        data_count: u64_from_le(b.subrange(6160, 6168)) as usize,
        risk_anchors: u32s_from_le(b.subrange(6168, 8216)),
        risk_count: u64_from_le(b.subrange(8216, 8224)) as usize,
    }
}

/// Reading back an encoded anchor block gives the block, counts included.
pub proof fn lemma_rule_vector_round_trip(v: RuleVectorView)
    requires
        v.well_formed(),
    ensures
        rule_vector_bytes(v).len() == RULE_VECTOR_BYTES,
        rule_vector_from_bytes(rule_vector_bytes(v)) == v,
{
    reveal(rule_vector_bytes);
    reveal(rule_vector_from_bytes);
    let b = rule_vector_bytes(v);
    lemma_u32s_len(v.action_anchors);
    lemma_u32s_len(v.resource_anchors);
    lemma_u32s_len(v.data_anchors);
    lemma_u32s_len(v.risk_anchors);
    assert(b.subrange(0, 2048) =~= u32s_le(v.action_anchors));
    assert(b.subrange(2048, 2056) =~= u64_le(v.action_count as u64));
    assert(b.subrange(2056, 4104) =~= u32s_le(v.resource_anchors));
    assert(b.subrange(4104, 4112) =~= u64_le(v.resource_count as u64));
    assert(b.subrange(4112, 6160) =~= u32s_le(v.data_anchors));
    assert(b.subrange(6160, 6168) =~= u64_le(v.data_count as u64));
    assert(b.subrange(6168, 8216) =~= u32s_le(v.risk_anchors));
    assert(b.subrange(8216, 8224) =~= u64_le(v.risk_count as u64));
    lemma_u32s_round_trip(v.action_anchors);
    lemma_u32s_round_trip(v.resource_anchors);
    lemma_u32s_round_trip(v.data_anchors);
    lemma_u32s_round_trip(v.risk_anchors);
    lemma_u64_le_round_trip(v.action_count as u64);
    lemma_u64_le_round_trip(v.resource_count as u64);
    lemma_u64_le_round_trip(v.data_count as u64);
    lemma_u64_le_round_trip(v.risk_count as u64);
}

/// A string as the warm file holds it: its UTF-8 length as a `u64`, then
/// its UTF-8 bytes.
pub open spec fn string_bytes(s: Seq<char>) -> Seq<u8> {
    u64_le(utf8_of(s).len() as u64) + utf8_of(s)
}

/// The string that begins at `pos` in `b`, and where it ends, if the bytes
/// there are a length and that many bytes of UTF-8.
#[verifier::opaque]
pub open spec fn string_at(b: Seq<u8>, pos: int) -> Option<(Seq<char>, int)> {
    if 0 <= pos && pos + 8 <= b.len() {
        let n = u64_from_le(b.subrange(pos, pos + 8)) as int;
        if pos + 8 + n <= b.len() {
            let raw = b.subrange(pos + 8, pos + 8 + n);
            if utf8_of(decode_utf8(raw)) == raw {
                Some((decode_utf8(raw), pos + 8 + n))
            } else {
                None
            }
        } else {
            None
        }
    } else {
        None
    }
}

/// The `u64` at `pos` in `b`, if eight bytes are there.
#[verifier::opaque]
pub open spec fn u64_at(b: Seq<u8>, pos: int) -> Option<u64> {
    if 0 <= pos && pos + 8 <= b.len() {
        Some(u64_from_le(b.subrange(pos, pos + 8)))
    } else {
        None
    }
}

/// The anchor block at `pos` in `b`, if enough bytes are there.
#[verifier::opaque]
pub open spec fn rule_vector_at(b: Seq<u8>, pos: int) -> Option<RuleVectorView> {
    if 0 <= pos && pos + RULE_VECTOR_BYTES <= b.len() {
        Some(rule_vector_from_bytes(b.subrange(pos, pos + RULE_VECTOR_BYTES)))
    } else {
        None
    }
}

pub proof fn lemma_u64_at(b: Seq<u8>, pos: int, v: u64)
    requires
        0 <= pos,
        pos + 8 <= b.len(),
        b.subrange(pos, pos + 8) == u64_le(v),
    ensures
        u64_at(b, pos) == Some(v),
{
    reveal(u64_at);
    lemma_u64_le_round_trip(v);
}

pub proof fn lemma_string_at(b: Seq<u8>, pos: int, s: Seq<char>)
    requires
        utf8_of(s).len() <= u64::MAX,
        0 <= pos,
        pos + string_bytes(s).len() <= b.len(),
        b.subrange(pos, pos + string_bytes(s).len()) == string_bytes(s),
    ensures
        string_at(b, pos) == Some((s, pos + string_bytes(s).len())),
{
    reveal(string_at);
    let e = string_bytes(s);
    let n = utf8_of(s).len() as int;
    assert(b.subrange(pos, pos + 8) =~= e.subrange(0, 8));
    assert(e.subrange(0, 8) =~= u64_le(n as u64));
    lemma_u64_le_round_trip(n as u64);
    assert(b.subrange(pos + 8, pos + 8 + n) =~= e.subrange(8, 8 + n));
    assert(e.subrange(8, 8 + n) =~= utf8_of(s));
    encode_utf8_decode_utf8(s);
}

pub proof fn lemma_rule_vector_at(b: Seq<u8>, pos: int, v: RuleVectorView)
    requires
        v.well_formed(),
        0 <= pos,
        pos + RULE_VECTOR_BYTES <= b.len(),
        b.subrange(pos, pos + RULE_VECTOR_BYTES) == rule_vector_bytes(v),
    ensures
        rule_vector_at(b, pos) == Some(v),
{
    reveal(rule_vector_at);
    lemma_rule_vector_round_trip(v);
}

fn push_u32_le(out: &mut Vec<u8>, v: u32)
    ensures
        final(out)@ == old(out)@ + u32_le(v),
{
    out.push((v & 0xff) as u8);
    out.push(((v >> 8u32) & 0xff) as u8);
    out.push(((v >> 16u32) & 0xff) as u8);
    out.push(((v >> 24u32) & 0xff) as u8);
    assert(((v & 0xff) as u8) == (v as u8) && (((v >> 8u32) & 0xff) as u8) == ((v >> 8u32) as u8)
        && (((v >> 16u32) & 0xff) as u8) == ((v >> 16u32) as u8) && (((v >> 24u32) & 0xff) as u8)
        == ((v >> 24u32) as u8)) by (bit_vector);
    assert(final(out)@ =~= old(out)@ + u32_le(v));
}

/// Appends the little-endian bytes of `v`.
pub fn push_u64_le(out: &mut Vec<u8>, v: u64)
    ensures
        final(out)@ == old(out)@ + u64_le(v),
{
    out.push((v & 0xff) as u8);
    out.push(((v >> 8u64) & 0xff) as u8);
    out.push(((v >> 16u64) & 0xff) as u8);
    out.push(((v >> 24u64) & 0xff) as u8);
    out.push(((v >> 32u64) & 0xff) as u8);
    out.push(((v >> 40u64) & 0xff) as u8);
    out.push(((v >> 48u64) & 0xff) as u8);
    out.push(((v >> 56u64) & 0xff) as u8);
    assert(((v & 0xff) as u8) == (v as u8) && (((v >> 8u64) & 0xff) as u8) == ((v >> 8u64) as u8)
        && (((v >> 16u64) & 0xff) as u8) == ((v >> 16u64) as u8) && (((v >> 24u64) & 0xff) as u8)
        == ((v >> 24u64) as u8) && (((v >> 32u64) & 0xff) as u8) == ((v >> 32u64) as u8) && (((v
        >> 40u64) & 0xff) as u8) == ((v >> 40u64) as u8) && (((v >> 48u64) & 0xff) as u8) == ((v
        >> 48u64) as u8) && (((v >> 56u64) & 0xff) as u8) == ((v >> 56u64) as u8))
        by (bit_vector);
    assert(final(out)@ =~= old(out)@ + u64_le(v));
}

/// Reads the `u64` at `pos`, if eight bytes are there.
pub fn read_u64_le(b: &[u8], pos: usize) -> (r: Option<u64>)
    ensures
        r == u64_at(b@, pos as int),
{
    reveal(u64_at);
    if pos > b.len() || b.len() - pos < 8 {
        return None;
    }
    let v = (b[pos] as u64) | ((b[pos + 1] as u64) << 8u64) | ((b[pos + 2] as u64) << 16u64) | ((
    b[pos + 3] as u64) << 24u64) | ((b[pos + 4] as u64) << 32u64) | ((b[pos + 5] as u64) << 40u64)
        | ((b[pos + 6] as u64) << 48u64) | ((b[pos + 7] as u64) << 56u64);
    assert(b@.subrange(pos as int, pos + 8)[0] == b@[pos as int]);
    assert(b@.subrange(pos as int, pos + 8)[1] == b@[pos + 1]);
    assert(b@.subrange(pos as int, pos + 8)[2] == b@[pos + 2]);
    assert(b@.subrange(pos as int, pos + 8)[3] == b@[pos + 3]);
    assert(b@.subrange(pos as int, pos + 8)[4] == b@[pos + 4]);
    assert(b@.subrange(pos as int, pos + 8)[5] == b@[pos + 5]);
    assert(b@.subrange(pos as int, pos + 8)[6] == b@[pos + 6]);
    assert(b@.subrange(pos as int, pos + 8)[7] == b@[pos + 7]);
    Some(v)
}

fn read_u32_le(b: &[u8], pos: usize) -> (r: u32)
    requires
        pos + 4 <= b@.len(),
    ensures
        r == u32_from_le(b@.subrange(pos as int, pos + 4)),
{
    let v = (b[pos] as u32) | ((b[pos + 1] as u32) << 8u32) | ((b[pos + 2] as u32) << 16u32) | ((
    b[pos + 3] as u32) << 24u32);
    assert(b@.subrange(pos as int, pos + 4)[0] == b@[pos as int]);
    assert(b@.subrange(pos as int, pos + 4)[1] == b@[pos + 1]);
    assert(b@.subrange(pos as int, pos + 4)[2] == b@[pos + 2]);
    assert(b@.subrange(pos as int, pos + 4)[3] == b@[pos + 3]);
    v
}

fn push_u32s_le(out: &mut Vec<u8>, s: &Vec<u32>)
    ensures
        final(out)@ == old(out)@ + u32s_le(s@),
{
    let mut i: usize = 0;
    while i < s.len()
        invariant
            i <= s@.len(),
            out@ == old(out)@ + u32s_le(s@.take(i as int)),
        decreases s@.len() - i,
    {
        push_u32_le(out, s[i]);
        assert(s@.take(i + 1).drop_last() =~= s@.take(i as int));
        assert(out@ =~= old(out)@ + u32s_le(s@.take(i + 1)));
        i = i + 1;
    }
    assert(s@.take(i as int) =~= s@);
}

fn read_u32s_le(b: &[u8], pos: usize, n: usize) -> (r: Vec<u32>)
    requires
        pos + 4 * n <= b@.len(),
    ensures
        r@ == u32s_from_le(b@.subrange(pos as int, pos + 4 * n)),
{
    let mut out: Vec<u32> = Vec::with_capacity(n);
    let mut i: usize = 0;
    let blen = b.len();
    assert(b@.subrange(pos as int, pos as int) =~= Seq::<u8>::empty());
    while i < n
        invariant
            i <= n,
            blen == b@.len(),
            pos + 4 * n <= b@.len(),
            out@ == u32s_from_le(b@.subrange(pos as int, pos + 4 * i)),
        decreases n - i,
    {
        let v = read_u32_le(b, pos + 4 * i);
        let ghost w = b@.subrange(pos as int, pos + 4 * (i + 1));
        assert(w.take(w.len() - 4) =~= b@.subrange(pos as int, pos + 4 * i));
        assert(w.skip(w.len() - 4) =~= b@.subrange(pos + 4 * i, pos + 4 * i + 4));
        out.push(v);
        i = i + 1;
    }
    out
}

/// Appends the warm-file encoding of a well-formed anchor block.
pub fn push_rule_vector(out: &mut Vec<u8>, v: &RuleVector)
    requires
        v@.well_formed(),
    ensures
        final(out)@ == old(out)@ + rule_vector_bytes(v@),
{
    reveal(rule_vector_bytes);
    push_u32s_le(out, &v.action_anchors);
    push_u64_le(out, v.action_count as u64);
    push_u32s_le(out, &v.resource_anchors);
    push_u64_le(out, v.resource_count as u64);
    push_u32s_le(out, &v.data_anchors);
    push_u64_le(out, v.data_count as u64);
    push_u32s_le(out, &v.risk_anchors);
    push_u64_le(out, v.risk_count as u64);
    assert(final(out)@ =~= old(out)@ + rule_vector_bytes(v@));
}

/// Reads the anchor block at `pos`, if enough bytes are there.
pub fn read_rule_vector(b: &[u8], pos: usize) -> (r: Option<RuleVector>)
    ensures
        r is Some <==> rule_vector_at(b@, pos as int) is Some,
        r matches Some(v) ==> rule_vector_at(b@, pos as int) == Some(v@),
{
    reveal(rule_vector_at);
    reveal(rule_vector_from_bytes);
    reveal(u64_at);
    if pos > b.len() || b.len() - pos < RULE_VECTOR_BYTES {
        return None;
    }
    let ghost w = b@.subrange(pos as int, pos + RULE_VECTOR_BYTES);
    let action_anchors = read_u32s_le(b, pos, SLOT_VALUES);
    let action_count = read_u64_le(b, pos + 2048).unwrap();
    let resource_anchors = read_u32s_le(b, pos + 2056, SLOT_VALUES);
    let resource_count = read_u64_le(b, pos + 4104).unwrap();
    let data_anchors = read_u32s_le(b, pos + 4112, SLOT_VALUES);
    let data_count = read_u64_le(b, pos + 6160).unwrap();
    let risk_anchors = read_u32s_le(b, pos + 6168, SLOT_VALUES);
    let risk_count = read_u64_le(b, pos + 8216).unwrap();
    assert(w.subrange(0, 2048) =~= b@.subrange(pos as int, pos + 2048));
    assert(w.subrange(2048, 2056) =~= b@.subrange(pos + 2048, pos + 2056));
    assert(w.subrange(2056, 4104) =~= b@.subrange(pos + 2056, pos + 4104));
    assert(w.subrange(4104, 4112) =~= b@.subrange(pos + 4104, pos + 4112));
    assert(w.subrange(4112, 6160) =~= b@.subrange(pos + 4112, pos + 6160));
    assert(w.subrange(6160, 6168) =~= b@.subrange(pos + 6160, pos + 6168));
    assert(w.subrange(6168, 8216) =~= b@.subrange(pos + 6168, pos + 8216));
    assert(w.subrange(8216, 8224) =~= b@.subrange(pos + 8216, pos + 8224));
    Some(
        RuleVector {
            action_anchors,
            action_count: action_count as usize,
            resource_anchors,
            resource_count: resource_count as usize,
            data_anchors,
            data_count: data_count as usize,
            risk_anchors,
            risk_count: risk_count as usize,
        },
    )
}

/// Relies on `String::from_utf8`: it accepts exactly the byte vectors that
/// are UTF-8, and the string it returns holds those bytes.
#[verifier::external_body]
fn string_from_utf8(v: Vec<u8>) -> (r: Option<String>)
    ensures
        r is Some <==> exists|c: Seq<char>| #[trigger] utf8_of(c) == v@,
        r matches Some(s) ==> utf8_of(s@) == v@,
{
    String::from_utf8(v).ok()
}

/// Appends the warm-file encoding of a string.
pub fn push_string(out: &mut Vec<u8>, s: &str)
    ensures
        final(out)@ == old(out)@ + string_bytes(s@),
{
    let bytes = s.as_bytes();
    push_u64_le(out, bytes.len() as u64);
    let ghost mid = out@;
    let mut i: usize = 0;
    while i < bytes.len()
        invariant
            i <= bytes@.len(),
            bytes@ == utf8_of(s@),
            out@ == mid + bytes@.take(i as int),
        decreases bytes@.len() - i,
    {
        out.push(bytes[i]);
        assert(out@ =~= mid + bytes@.take(i + 1));
        i = i + 1;
    }
    assert(bytes@.take(i as int) =~= bytes@);
    assert(final(out)@ =~= old(out)@ + string_bytes(s@));
}

/// Reads the string at `pos` and where it ends, if the bytes there are a
/// length and that many bytes of UTF-8.
pub fn read_string(b: &[u8], pos: usize) -> (r: Option<(String, usize)>)
    ensures
        r is Some <==> string_at(b@, pos as int) is Some,
        r matches Some((s, end)) ==> string_at(b@, pos as int) == Some((s@, end as int)),
{
    reveal(string_at);
    reveal(u64_at);
    let blen = b.len();
    let n = match read_u64_le(b, pos) {
        Some(n) => n,
        None => return None,
    };
    assert(pos + 8 <= blen);
    let start = pos + 8;
    if n > (b.len() - start) as u64 {
        return None;
    }
    let end = start + n as usize;
    let mut raw: Vec<u8> = Vec::with_capacity(n as usize);
    let mut i: usize = start;
    while i < end
        invariant
            start <= i <= end <= b@.len(),
            raw@ == b@.subrange(start as int, i as int),
        decreases end - i,
    {
        raw.push(b[i]);
        assert(raw@ =~= b@.subrange(start as int, i + 1));
        i = i + 1;
    }
    let ghost bytes = raw@;
    match string_from_utf8(raw) {
        Some(s) => {
            proof {
                encode_utf8_decode_utf8(s@);
            }
            Some((s, end))
        },
        None => {
            proof {
                if utf8_of(decode_utf8(bytes)) == bytes {
                    assert(exists|c: Seq<char>| #[trigger] utf8_of(c) == bytes);
                }
            }
            None
        },
    }
}

pub proof fn lemma_u32s_from_le_len(b: Seq<u8>)
    ensures
        u32s_from_le(b).len() == b.len() / 4,
    decreases b.len(),
{
    if b.len() >= 4 {
        lemma_u32s_from_le_len(b.take(b.len() - 4));
    }
}

/// Every block read from `RULE_VECTOR_BYTES` bytes has the fixed shape.
pub proof fn lemma_rule_vector_at_well_formed(b: Seq<u8>, pos: int)
    requires
        rule_vector_at(b, pos) is Some,
    ensures
        rule_vector_at(b, pos)->0.well_formed(),
{
    reveal(rule_vector_at);
    reveal(rule_vector_from_bytes);
    let w = b.subrange(pos, pos + RULE_VECTOR_BYTES);
    lemma_u32s_from_le_len(w.subrange(0, 2048));
    lemma_u32s_from_le_len(w.subrange(2056, 4104));
    lemma_u32s_from_le_len(w.subrange(4112, 6160));
    lemma_u32s_from_le_len(w.subrange(6168, 8216));
}

} // verus!
