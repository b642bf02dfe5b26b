//! The stored form of attribute values.
//!
//! A text is stored as the length of its UTF-8 form, a 64-bit little-endian
//! number, followed by those bytes; a photo as its length and its bytes; an
//! integer as 8 bytes, little-endian, of the number moved up by 2^63; a point
//! in time as its seconds, stored like an integer, and 4 bytes of
//! nanoseconds. A collection is stored as the number of its values followed
//! by the values one after the other.
use vstd::prelude::*;
use vstd::bytes::{
    lemma_auto_spec_u32_to_from_le_bytes, lemma_auto_spec_u64_to_from_le_bytes,
    spec_u32_from_le_bytes, spec_u32_to_le_bytes, spec_u64_from_le_bytes, spec_u64_to_le_bytes,
    u32_from_le_bytes, u32_to_le_bytes, u64_from_le_bytes, u64_to_le_bytes,
};
use vstd::slice::{slice_subrange, slice_to_vec};
use vstd::utf8::{decode_utf8, encode_utf8, valid_utf8};
use crate::schema::{AttributeList, declaration_of};
use crate::types::{
    Attribute, AttributeType, AttributeValue, AttributeValueView, AttributeView, DomainError,
    DomainErrorView, Scalar, ScalarView, Timestamp, views,
};

verus! {

/// The unsigned number that stands for `i`.
pub open spec fn biased(i: i64) -> u64 {
    (i + 0x8000_0000_0000_0000) as u64
}

pub(crate) fn bias(i: i64) -> (u: u64)
    ensures
        u == biased(i),
{
    ((i as i128) + 0x8000_0000_0000_0000i128) as u64
}

/// The stored form of a length.
pub open spec fn encode_len(n: nat) -> Seq<u8> {
    spec_u64_to_le_bytes(n as u64)
}

/// The stored form of one value.
pub open spec fn encode_scalar(s: ScalarView) -> Seq<u8> {
    match s {
        ScalarView::String(t) => encode_len(encode_utf8(t).len()) + encode_utf8(t),
        ScalarView::Integer(i) => spec_u64_to_le_bytes(biased(i)),
        ScalarView::JpegPhoto(b) => encode_len(b.len()) + b,
        ScalarView::DateTime(t) => spec_u64_to_le_bytes(biased(t.seconds)) + spec_u32_to_le_bytes(
            t.nanoseconds,
        ),
    }
}

/// The stored forms of the values, one after the other.
pub open spec fn encode_items(items: Seq<ScalarView>) -> Seq<u8>
    decreases items.len(),
{
    if items.len() == 0 {
        Seq::empty()
    } else {
        encode_scalar(items[0]) + encode_items(items.drop_first())
    }
}

/// The stored form of what an attribute holds.
pub open spec fn encode_value(v: AttributeValueView) -> Seq<u8> {
    match v {
        AttributeValueView::Single(s) => encode_scalar(s),
        AttributeValueView::List(_, items) => encode_len(items.len()) + encode_items(items),
    }
}

/// The stored form of a collection with one more value is the stored form
/// of the collection followed by that of the value.
pub proof fn lemma_encode_items_push(items: Seq<ScalarView>, s: ScalarView)
    ensures
        encode_items(items.push(s)) == encode_items(items) + encode_scalar(s),
    decreases items.len(),
{
    if items.len() == 0 {
        reveal_with_fuel(encode_items, 2);
        assert(items.push(s).drop_first() =~= Seq::<ScalarView>::empty());
        assert(encode_items(items.push(s)) =~= encode_items(items) + encode_scalar(s));
    } else {
        lemma_encode_items_push(items.drop_first(), s);
        assert(items.push(s).drop_first() =~= items.drop_first().push(s));
        assert(encode_items(items.push(s)) =~= encode_items(items) + encode_scalar(s));
    }
}

fn append(out: &mut Vec<u8>, bytes: &[u8])
    ensures
        final(out)@ == old(out)@ + bytes@,
{
    out.extend_from_slice(bytes);
    assert(out@ =~= old(out)@ + bytes@);
}

fn append_len(out: &mut Vec<u8>, n: usize)
    ensures
        final(out)@ == old(out)@ + encode_len(n as nat),
{
    let bytes = u64_to_le_bytes(n as u64);
    append(out, bytes.as_slice());
}

fn append_scalar(out: &mut Vec<u8>, s: &Scalar)
    ensures
        final(out)@ == old(out)@ + encode_scalar(s@),
        scalar_fits(s@),
{
    match s {
        Scalar::String(t) => {
            let bytes = t.as_str().as_bytes();
            append_len(out, bytes.len());
            append(out, bytes);
        },
        Scalar::Integer(i) => {
            let bytes = u64_to_le_bytes(bias(*i));
            append(out, bytes.as_slice());
        },
        Scalar::JpegPhoto(b) => {
            append_len(out, b.len());
            append(out, b.as_slice());
        },
        Scalar::DateTime(t) => {
            let seconds = u64_to_le_bytes(bias(t.seconds));
            append(out, seconds.as_slice());
            let nanoseconds = u32_to_le_bytes(t.nanoseconds);
            append(out, nanoseconds.as_slice());
        },
    }
    assert(out@ =~= old(out)@ + encode_scalar(s@));
}

/// The stored form of `value`.
pub fn serialize(value: &AttributeValue) -> (bytes: Vec<u8>)
    ensures
        bytes@ == encode_value(value@),
        forall|ty: AttributeType, is_list: bool|
            value@.conforms(ty, is_list) ==> #[trigger] decode_value(ty, is_list, bytes@) == Some(value@),
{
    let mut out: Vec<u8> = Vec::new();
    match value {
        AttributeValue::Single(s) => {
            append_scalar(&mut out, s);
        },
        AttributeValue::List(_, items) => {
            append_len(&mut out, items.len());
            let mut i: usize = 0;
            while i < items.len()
                invariant
                    i <= items.len(),
                    out@ == encode_len(items@.len()) + encode_items(views(items@).take(i as int)),
                    forall|j: int| 0 <= j < i ==> scalar_fits(#[trigger] views(items@)[j]),
                decreases items.len() - i,
            {
                append_scalar(&mut out, &items[i]);
                proof {
                    let done = views(items@).take(i as int);
                    lemma_encode_items_push(done, items@[i as int]@);
                    assert(views(items@).take(i + 1) =~= done.push(items@[i as int]@));
                }
                i += 1;
            }
            assert(views(items@).take(i as int) =~= views(items@));
        },
    }
    assert(out@ =~= encode_value(value@));
    assert forall|ty: AttributeType, is_list: bool| value@.conforms(ty, is_list) implies #[trigger] decode_value(
        ty,
        is_list,
        out@,
    ) == Some(value@) by {
        lemma_value_round_trip(value@, ty, is_list);
    }
    out
}

/// The error that `str::from_utf8` of the standard library reports.
#[verifier::external_type_specification]
#[verifier::external_body]
pub struct ExUtf8Error(core::str::Utf8Error);

/// `str::from_utf8` accepts exactly the byte sequences that are UTF-8, and
/// the text it returns has the given bytes as its UTF-8 form.
pub assume_specification[ core::str::from_utf8 ](v: &[u8]) -> (r: Result<&str, core::str::Utf8Error>)
    ensures
        r is Ok == valid_utf8(v@),
        r matches Ok(s) ==> encode_utf8(s@) == v@,
;

/// The number that the unsigned number `u` stands for.
pub open spec fn unbiased(u: u64) -> i64 {
    (u - 0x8000_0000_0000_0000) as i64
}

fn unbias(u: u64) -> (i: i64)
    ensures
        i == unbiased(u),
{
    ((u as i128) - 0x8000_0000_0000_0000i128) as i64
}

/// The length that stands at the front of `b`.
pub open spec fn decode_len(b: Seq<u8>) -> Option<nat> {
    if b.len() >= 8 {
        Some(spec_u64_from_le_bytes(b.take(8)) as nat)
    } else {
        None
    }
}

/// The value of type `ty` that stands at the front of `b`, with the number
/// of bytes that it takes; `None` where no such value stands there.
pub open spec fn decode_scalar(ty: AttributeType, b: Seq<u8>) -> Option<(ScalarView, nat)> {
    match ty {
        AttributeType::Integer => if b.len() >= 8 {
            Some((ScalarView::Integer(unbiased(spec_u64_from_le_bytes(b.take(8)))), 8))
        } else {
            None
        },
        AttributeType::DateTime => if b.len() >= 12 {
            Some(
                (
                    ScalarView::DateTime(
                        Timestamp {
                            seconds: unbiased(spec_u64_from_le_bytes(b.take(8))),
                            nanoseconds: spec_u32_from_le_bytes(b.subrange(8, 12)),
                        },
                    ),
                    12,
                ),
            )
        } else {
            None
        },
        AttributeType::JpegPhoto => match decode_len(b) {
            Some(n) => if 8 + n <= b.len() {
                Some((ScalarView::JpegPhoto(b.subrange(8, 8 + n as int)), 8 + n))
            } else {
                None
            },
            None => None,
        },
        AttributeType::String => match decode_len(b) {
            Some(n) => if 8 + n <= b.len() && valid_utf8(b.subrange(8, 8 + n as int)) {
                Some((ScalarView::String(decode_utf8(b.subrange(8, 8 + n as int))), 8 + n))
            } else {
                None
            },
            None => None,
        },
    }
}

/// The `count` values of type `ty` that make up all of `b`; `None` where `b`
/// is not made up of `count` such values.
pub open spec fn decode_items(ty: AttributeType, b: Seq<u8>, count: nat) -> Option<Seq<ScalarView>>
    decreases count,
{
    if count == 0 {
        if b.len() == 0 {
            Some(Seq::empty())
        } else {
            None
        }
    } else {
        match decode_scalar(ty, b) {
            Some((s, n)) => match decode_items(ty, b.skip(n as int), (count - 1) as nat) {
                Some(rest) => Some(seq![s] + rest),
                None => None,
            },
            None => None,
        }
    }
}

/// What the bytes `b` hold for an attribute declared with type `ty`, single
/// or multi-valued; `None` where they are not the stored form of such a
/// value.
pub open spec fn decode_value(ty: AttributeType, is_list: bool, b: Seq<u8>) -> Option<AttributeValueView> {
    if is_list {
        match decode_len(b) {
            Some(count) => match decode_items(ty, b.skip(8), count) {
                Some(items) => Some(AttributeValueView::List(ty, items)),
                None => None,
            },
            None => None,
        }
    } else {
        match decode_scalar(ty, b) {
            Some((s, n)) => if n == b.len() {
                Some(AttributeValueView::Single(s))
            } else {
                None
            },
            None => None,
        }
    }
}

/// Whether the lengths in the stored form of `s` can be written in 64 bits.
pub open spec fn scalar_fits(s: ScalarView) -> bool {
    match s {
        ScalarView::String(t) => encode_utf8(t).len() <= u64::MAX,
        ScalarView::JpegPhoto(b) => b.len() <= u64::MAX,
        _ => true,
    }
}

/// Whether the lengths in the stored form of `v` can be written in 64 bits.
pub open spec fn value_fits(v: AttributeValueView) -> bool {
    match v {
        AttributeValueView::Single(s) => scalar_fits(s),
        AttributeValueView::List(_, items) => {
            &&& items.len() <= u64::MAX
            &&& forall|i: int| 0 <= i < items.len() ==> scalar_fits(#[trigger] items[i])
        },
    }
}

/// A stored value, whatever follows it, is read back as it was.
pub proof fn lemma_scalar_round_trip(s: ScalarView, rest: Seq<u8>)
    requires
        scalar_fits(s),
    ensures
        decode_scalar(s.kind(), encode_scalar(s) + rest) == Some((s, encode_scalar(s).len())),
{
    lemma_auto_spec_u64_to_from_le_bytes();
    lemma_auto_spec_u32_to_from_le_bytes();
    let e = encode_scalar(s);
    let b = e + rest;
    match s {
        ScalarView::Integer(i) => {
            assert(b.take(8) =~= e);
        },
        ScalarView::DateTime(t) => {
            assert(b.take(8) =~= spec_u64_to_le_bytes(biased(t.seconds)));
            assert(b.subrange(8, 12) =~= spec_u32_to_le_bytes(t.nanoseconds));
        },
        ScalarView::JpegPhoto(p) => {
            assert(b.take(8) =~= encode_len(p.len()));
            assert(b.subrange(8, 8 + p.len() as int) =~= p);
        },
        ScalarView::String(t) => {
            let p = encode_utf8(t);
            vstd::utf8::encode_utf8_valid_utf8(t);
            vstd::utf8::encode_utf8_decode_utf8(t);
            assert(b.take(8) =~= encode_len(p.len()));
            assert(b.subrange(8, 8 + p.len() as int) =~= p);
        },
    }
}

/// A stored collection is read back as it was.
pub proof fn lemma_items_round_trip(ty: AttributeType, items: Seq<ScalarView>)
    requires
        forall|i: int| 0 <= i < items.len() ==> (#[trigger] items[i]).kind() == ty && scalar_fits(items[i]),
    ensures
        decode_items(ty, encode_items(items), items.len()) == Some(items),
    decreases items.len(),
{
    if items.len() > 0 {
        let tail = items.drop_first();
        let e = encode_scalar(items[0]);
        assert forall|i: int| 0 <= i < tail.len() implies (#[trigger] tail[i]).kind() == ty && scalar_fits(tail[i]) by {
            assert(tail[i] == items[i + 1]);
        }
        lemma_items_round_trip(ty, tail);
        lemma_scalar_round_trip(items[0], encode_items(tail));
        assert(encode_items(items).skip(e.len() as int) =~= encode_items(tail));
        assert(seq![items[0]] + tail =~= items);
    }
}

/// What is stored for a value of the declared type is read back as that
/// value.
pub proof fn lemma_value_round_trip(v: AttributeValueView, ty: AttributeType, is_list: bool)
    requires
        v.conforms(ty, is_list),
        value_fits(v),
    ensures
        decode_value(ty, is_list, encode_value(v)) == Some(v),
{
    lemma_auto_spec_u64_to_from_le_bytes();
    match v {
        AttributeValueView::Single(s) => {
            lemma_scalar_round_trip(s, Seq::empty());
            assert(encode_scalar(s) + Seq::<u8>::empty() =~= encode_scalar(s));
        },
        AttributeValueView::List(_, items) => {
            let b = encode_value(v);
            lemma_items_round_trip(ty, items);
            assert(b.take(8) =~= encode_len(items.len()));
            assert(b.skip(8) =~= encode_items(items));
        },
    }
}

/// A value that is read from the front of some bytes is of the type asked
/// for, and those bytes are its stored form.
pub proof fn lemma_scalar_decoded(ty: AttributeType, b: Seq<u8>)
    requires
        decode_scalar(ty, b) is Some,
    ensures
        ({
            let (s, n) = decode_scalar(ty, b)->0;
            &&& s.kind() == ty
            &&& scalar_fits(s)
            &&& n <= b.len()
            &&& encode_scalar(s) == b.take(n as int)
        }),
{
    lemma_auto_spec_u64_to_from_le_bytes();
    lemma_auto_spec_u32_to_from_le_bytes();
    let (s, n) = decode_scalar(ty, b)->0;
    match ty {
        AttributeType::Integer => {
            let u = spec_u64_from_le_bytes(b.take(8));
            assert(biased(unbiased(u)) == u);
            assert(encode_scalar(s) =~= b.take(8));
        },
        AttributeType::DateTime => {
            let u = spec_u64_from_le_bytes(b.take(8));
            assert(biased(unbiased(u)) == u);
            assert(b.take(8) + b.subrange(8, 12) =~= b.take(12));
        },
        AttributeType::JpegPhoto => {
            let m = decode_len(b)->0;
            assert(b.take(8) + b.subrange(8, 8 + m as int) =~= b.take(8 + m as int));
        },
        AttributeType::String => {
            let m = decode_len(b)->0;
            vstd::utf8::decode_utf8_encode_utf8(b.subrange(8, 8 + m as int));
            assert(b.take(8) + b.subrange(8, 8 + m as int) =~= b.take(8 + m as int));
        },
    }
}

/// Values that are read from some bytes are of the type asked for, as many
/// as asked for, and those bytes are their stored form.
pub proof fn lemma_items_decoded(ty: AttributeType, b: Seq<u8>, count: nat)
    requires
        decode_items(ty, b, count) is Some,
    ensures
        ({
            let items = decode_items(ty, b, count)->0;
            &&& items.len() == count
            &&& forall|i: int| 0 <= i < items.len() ==> (#[trigger] items[i]).kind() == ty && scalar_fits(items[i])
            &&& encode_items(items) == b
        }),
    decreases count,
{
    let items = decode_items(ty, b, count)->0;
    if count == 0 {
        assert(b =~= Seq::<u8>::empty());
    } else {
        let (s, n) = decode_scalar(ty, b)->0;
        let tail = decode_items(ty, b.skip(n as int), (count - 1) as nat)->0;
        lemma_scalar_decoded(ty, b);
        lemma_items_decoded(ty, b.skip(n as int), (count - 1) as nat);
        assert(items.drop_first() =~= tail);
        assert(b.take(n as int) + b.skip(n as int) =~= b);
    }
}

/// A value that is read from some bytes is one that the declared attribute
/// can hold, and those bytes are its stored form. With the round trip this
/// makes the stored form and the reading inverse to each other.
pub proof fn lemma_value_decoded(ty: AttributeType, is_list: bool, b: Seq<u8>)
    requires
        decode_value(ty, is_list, b) is Some,
    ensures
        ({
            let v = decode_value(ty, is_list, b)->0;
            &&& v.conforms(ty, is_list)
            &&& value_fits(v)
            &&& encode_value(v) == b
        }),
{
    lemma_auto_spec_u64_to_from_le_bytes();
    if is_list {
        let count = decode_len(b)->0;
        lemma_items_decoded(ty, b.skip(8), count);
        assert(b.take(8) + b.skip(8) =~= b);
    } else {
        lemma_scalar_decoded(ty, b);
        assert(b.take(b.len() as int) =~= b);
    }
}

fn read_u64(bytes: &[u8], pos: usize) -> (r: Option<u64>)
    requires
        pos <= bytes@.len(),
    ensures
        r == (if bytes@.len() - pos >= 8 {
            Some(spec_u64_from_le_bytes(bytes@.skip(pos as int).take(8)))
        } else {
            None
        }),
{
    if bytes.len() - pos < 8 {
        None
    } else {
        let s = slice_subrange(bytes, pos, pos + 8);
        assert(s@ =~= bytes@.skip(pos as int).take(8));
        Some(u64_from_le_bytes(s))
    }
}

/// Reads the value of type `ty` that starts at `pos`; with it comes the
/// place where the value ends.
fn read_scalar(ty: AttributeType, bytes: &[u8], pos: usize) -> (r: Option<(Scalar, usize)>)
    requires
        pos <= bytes@.len(),
    ensures
        match decode_scalar(ty, bytes@.skip(pos as int)) {
            Some((s, n)) => r matches Some((x, next)) && x@ == s && next == pos + n,
            None => r is None,
        },
{
    let ghost b = bytes@.skip(pos as int);
    let len = bytes.len();
    match ty {
        AttributeType::Integer => match read_u64(bytes, pos) {
            Some(u) => Some((Scalar::Integer(unbias(u)), pos + 8)),
            None => None,
        },
        AttributeType::DateTime => {
            if len - pos < 12 {
                return None;
            }
            let u = match read_u64(bytes, pos) {
                Some(u) => u,
                None => {
                    return None;
                },
            };
            let s = slice_subrange(bytes, pos + 8, pos + 12);
            assert(s@ =~= b.subrange(8, 12));
            let t = Timestamp { seconds: unbias(u), nanoseconds: u32_from_le_bytes(s) };
            Some((Scalar::DateTime(t), pos + 12))
        },
        AttributeType::JpegPhoto => {
            let n = match read_u64(bytes, pos) {
                Some(n) => n,
                None => {
                    return None;
                },
            };
            if n > (len - pos - 8) as u64 {
                return None;
            }
            let s = slice_subrange(bytes, pos + 8, pos + 8 + n as usize);
            assert(s@ =~= b.subrange(8, 8 + n as int));
            Some((Scalar::JpegPhoto(slice_to_vec(s)), pos + 8 + n as usize))
        },
        AttributeType::String => {
            let n = match read_u64(bytes, pos) {
                Some(n) => n,
                None => {
                    return None;
                },
            };
            if n > (len - pos - 8) as u64 {
                return None;
            }
            let s = slice_subrange(bytes, pos + 8, pos + 8 + n as usize);
            assert(s@ =~= b.subrange(8, 8 + n as int));
            match core::str::from_utf8(s) {
                Ok(text) => {
                    proof {
                        vstd::utf8::encode_utf8_decode_utf8(text@);
                    }
                    Some((Scalar::String(text.to_owned()), pos + 8 + n as usize))
                },
                Err(_) => None,
            }
        },
    }
}

/// Reads what `bytes` hold for an attribute declared with type `ty`, single
/// or multi-valued.
pub fn deserialize(ty: AttributeType, is_list: bool, bytes: &[u8]) -> (r: Option<AttributeValue>)
    ensures
        match decode_value(ty, is_list, bytes@) {
            Some(v) => r matches Some(x) && x@ == v,
            None => r is None,
        },
{
    assert(bytes@.skip(0) =~= bytes@);
    if !is_list {
        return match read_scalar(ty, bytes, 0) {
            Some((s, next)) => if next == bytes.len() {
                Some(AttributeValue::Single(s))
            } else {
                None
            },
            None => None,
        };
    }
    let count = match read_u64(bytes, 0) {
        Some(n) => n,
        None => {
            return None;
        },
    };
    let ghost whole = decode_items(ty, bytes@.skip(8), count as nat);
    let mut items: Vec<Scalar> = Vec::new();
    let mut pos: usize = 8;
    let mut i: u64 = 0;
    assert(views(items@) =~= Seq::<ScalarView>::empty());
    while i < count
        invariant
            i <= count,
            8 <= pos <= bytes@.len(),
            is_list,
            decode_len(bytes@) == Some(count as nat),
            whole == decode_items(ty, bytes@.skip(8), count as nat),
            whole == match decode_items(ty, bytes@.skip(pos as int), (count - i) as nat) {
                Some(rest) => Some(views(items@) + rest),
                None => None,
            },
        decreases count - i,
    {
        let ghost b = bytes@.skip(pos as int);
        let ghost done = views(items@);
        match read_scalar(ty, bytes, pos) {
            Some((s, next)) => {
                proof {
                    assert(b.skip(next - pos) =~= bytes@.skip(next as int));
                    let rest = decode_items(ty, bytes@.skip(next as int), (count - i - 1) as nat);
                    if rest is Some {
                        assert(done + (seq![s@] + rest->0) =~= done.push(s@) + rest->0);
                    }
                    assert(views(items@.push(s)) =~= done.push(s@));
                }
                items.push(s);
                pos = next;
            },
            None => {
                return None;
            },
        }
        i += 1;
    }
    if pos == bytes.len() {
        assert(views(items@) + Seq::<ScalarView>::empty() =~= views(items@));
        Some(AttributeValue::List(ty, items))
    } else {
        None
    }
}

/// Decodes a stored attribute against the schema: the declared type of
/// `name` says how `bytes` are read.
pub fn deserialize_attribute(name: String, bytes: &[u8], schema: &AttributeList) -> (r: Result<Attribute, DomainError>)
    ensures
        match declaration_of(schema@, name@) {
            None => r matches Err(e) && e@ == DomainErrorView::SchemaMismatch(name@),
            Some(d) => match decode_value(d.attribute_type, d.is_list, bytes@) {
                Some(v) => r matches Ok(a) && a@ == (AttributeView { name: name@, value: v }),
                None => r matches Err(e) && e@ == DomainErrorView::DecodeError(name@),
            },
        },
{
    let (ty, is_list) = match schema.get_attribute_schema(name.as_str()) {
        Some(d) => (d.attribute_type, d.is_list),
        None => {
            return Err(DomainError::SchemaMismatch(name));
        },
    };
    match deserialize(ty, is_list, bytes) {
        Some(value) => Ok(Attribute { name, value }),
        None => Err(DomainError::DecodeError(name)),
    }
}

} // verus!
