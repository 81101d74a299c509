//! The boundary with serde_json: the JSON value types, the streaming scanner,
//! object field access and object serialization.
use vstd::prelude::*;

use crate::record::Document;

verus! {

#[verifier::external_type_specification]
#[verifier::external_body]
pub struct ExValue(serde_json::Value);

#[verifier::external_type_specification]
#[verifier::external_body]
#[verifier::reject_recursive_types(K)]
#[verifier::reject_recursive_types(V)]
pub struct ExMap<K, V>(serde_json::Map<K, V>);

/// What the scanner finds at the start of a run of bytes.
#[derive(Clone, Copy, Debug, PartialEq, Eq)]
pub enum ScanShape {
    /// Only whitespace is left.
    End,
    /// A whole JSON value, ending after this many bytes.
    Item(usize),
    /// The bytes end in the middle of a value.
    Truncated,
    /// The bytes are not JSON.
    Malformed,
}

/// What serde_json's stream deserializer reports for the JSON value that
/// starts a run of bytes; a function of those bytes alone.
pub uninterp spec fn json_next(rest: Seq<u8>) -> ScanShape;

/// The object that serde_json's stream deserializer yields first from a run
/// of bytes, if that first value is an object; a function of the bytes alone.
pub uninterp spec fn json_object_next(rest: Seq<u8>) -> Option<Document>;

/// The keys of a JSON object.
pub uninterp spec fn object_keys(m: Document) -> Set<Seq<char>>;

/// A JSON object with one key removed, the others kept in order.
pub uninterp spec fn object_without(m: Document, key: Seq<char>) -> Document;

/// The boolean that a key of a JSON object holds, if it holds one.
pub uninterp spec fn field_bool(m: Document, key: Seq<char>) -> Option<bool>;

/// The unsigned integer that a key of a JSON object holds, if it holds one
/// that fits in 64 bits.
pub uninterp spec fn field_u64(m: Document, key: Seq<char>) -> Option<u64>;

/// The compact JSON text that serde_json writes for an object.
pub uninterp spec fn object_text(m: Document) -> Seq<u8>;

/// The result of scanning for the next JSON value.
pub enum Scanned {
    End,
    Object(Document, usize),
    NotObject(usize),
    Truncated,
    Malformed,
}

impl Scanned {
    pub open spec fn shape(&self) -> ScanShape {
        match self {
            Scanned::End => ScanShape::End,
            Scanned::Object(_, used) => ScanShape::Item(*used),
            Scanned::NotObject(used) => ScanShape::Item(*used),
            Scanned::Truncated => ScanShape::Truncated,
            Scanned::Malformed => ScanShape::Malformed,
        }
    }
}

/// Relies on serde_json::StreamDeserializer over a byte slice: `next` skips
/// whitespace and yields `None` when nothing else is left, else the next value
/// or an error, which `is_eof` tells apart as a cut-off value; after a value,
/// `byte_offset` is the position just past it. The value's variant tells an
/// object apart.
#[verifier::external_body]
pub(crate) fn scan_value(buf: &[u8], start: usize) -> (r: Scanned)
    requires
        start <= buf@.len(),
    ensures
        r.shape() == json_next(buf@.subrange(start as int, buf@.len() as int)),
        r matches Scanned::Object(m, _) ==> json_object_next(
            buf@.subrange(start as int, buf@.len() as int),
        ) == Some(m),
        r matches Scanned::NotObject(_) ==> json_object_next(
            buf@.subrange(start as int, buf@.len() as int),
        ) is None,
        r matches Scanned::Object(_, used) ==> 0 < used <= buf@.len() - start,
        r matches Scanned::NotObject(used) ==> 0 < used <= buf@.len() - start,
        start == buf@.len() ==> r matches Scanned::End,
{
    let mut stream = serde_json::Deserializer::from_slice(&buf[start..]).into_iter::<
        serde_json::Value,
    >();
    match stream.next() {
        None => Scanned::End,
        Some(Ok(serde_json::Value::Object(m))) => Scanned::Object(m, stream.byte_offset()),
        Some(Ok(_)) => Scanned::NotObject(stream.byte_offset()),
        Some(Err(e)) if e.is_eof() => Scanned::Truncated,
        Some(Err(_)) => Scanned::Malformed,
    }
}

/// Relies on serde_json::Map::contains_key.
#[verifier::external_body]
pub(crate) fn has_field(m: &Document, key: &str) -> (r: bool)
    ensures
        r == object_keys(*m).contains(key@),
{
    m.contains_key(key)
}

/// Relies on serde_json::Map::get and serde_json::Value::as_bool.
#[verifier::external_body]
pub(crate) fn get_bool(m: &Document, key: &str) -> (r: Option<bool>)
    ensures
        r == field_bool(*m, key@),
{
    m.get(key).and_then(serde_json::Value::as_bool)
}

/// Relies on serde_json::Map::get and serde_json::Value::as_u64.
#[verifier::external_body]
pub(crate) fn get_u64(m: &Document, key: &str) -> (r: Option<u64>)
    ensures
        r == field_u64(*m, key@),
{
    m.get(key).and_then(serde_json::Value::as_u64)
}

/// Relies on serde_json::Map::shift_remove: removes `key`, keeping the order
/// of the other keys.
#[verifier::external_body]
pub(crate) fn remove_field(m: &mut Document, key: &str)
    ensures
        *final(m) == object_without(*old(m), key@),
        object_keys(*final(m)) == object_keys(*old(m)).remove(key@),
{
    m.shift_remove(key);
}

/// Relies on serde_json::to_vec on a map of strings to values: it writes one
/// JSON object, from `{` to `}`, with nothing after it, and cannot fail, as
/// no key or value of such a map is refused by the serializer.
#[verifier::external_body]
pub(crate) fn object_json(m: &Document) -> (r: Vec<u8>)
    ensures
        r@ == object_text(*m),
        r@.len() >= 2 && r@[0] == 0x7bu8 && r@.last() == 0x7du8,
{
    serde_json::to_vec(m).expect("a map of strings to values always serializes")
}

} // verus!
