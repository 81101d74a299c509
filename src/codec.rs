//! The log's line format: a record is one JSON object on one line, an upsert
//! as `{"id":N,...fields}` and a tombstone as `{"id":N,"deleted":true}`.
use vstd::prelude::*;

use crate::json::{
    field_bool, field_u64, get_bool, get_u64, has_field, json_object_next, object_json, object_keys,
    object_text, object_without, remove_field,
};
use crate::record::{Document, Record, RecordId};

verus! {

/// What a top-level field of a decoded object holds, as far as the log
/// format cares.
#[derive(Clone, Copy, Debug, PartialEq, Eq)]
pub enum Field {
    Absent,
    Bool(bool),
    UInt(u64),
    Other,
}

/// Why a JSON value is not a record.
#[derive(Clone, Copy, Debug, PartialEq, Eq)]
pub enum DecodeError {
    /// The value is not a JSON object.
    NotAnObject,
    /// The `id` field is missing or is not an unsigned 32-bit integer.
    BadId,
    /// The `deleted` field is neither absent nor a boolean.
    BadMarker,
}

/// The identifier that an `id` field holds, if it holds one.
pub open spec fn id_in(id: Field) -> Option<RecordId> {
    match id {
        Field::UInt(n) => if n <= u32::MAX {
            Some(n as RecordId)
        } else {
            None
        },
        _ => None,
    }
}

/// The dispatch rule: a `deleted` marker that is `true` makes a tombstone;
/// an absent or `false` marker makes an upsert whose payload is the rest of
/// the object; any other marker is an error. Either variant needs an `id`.
pub open spec fn decoded(id: Field, marker: Field, rest: Document) -> Result<
    Record<Document>,
    DecodeError,
> {
    match marker {
        Field::Bool(true) => match id_in(id) {
            Some(n) => Ok(Record::Delete(crate::record::DeleteRecord { id: n, deleted: crate::boolean::True })),
            None => Err(DecodeError::BadId),
        },
        Field::Absent | Field::Bool(false) => match id_in(id) {
            Some(n) => Ok(
                Record::Upsert(
                    crate::record::UpsertRecord {
                        deleted: crate::boolean::False,
                        data: crate::record::RecordData { id: n, data: rest },
                    },
                ),
            ),
            None => Err(DecodeError::BadId),
        },
        _ => Err(DecodeError::BadMarker),
    }
}

/// Decodes a record from its `id` field, its `deleted` field and the rest
/// of its object.
pub fn decode_fields(id: Field, marker: Field, rest: Document) -> (r: Result<
    Record<Document>,
    DecodeError,
>)
    ensures
        r == decoded(id, marker, rest),
{
    let n = match id {
        Field::UInt(n) => if n <= u32::MAX as u64 {
            Some(n as RecordId)
        } else {
            None
        },
        _ => None,
    };
    match marker {
        Field::Bool(true) => match n {
            Some(n) => Ok(Record::delete(n)),
            None => Err(DecodeError::BadId),
        },
        Field::Absent | Field::Bool(false) => match n {
            Some(n) => Ok(Record::upsert(n, rest)),
            None => Err(DecodeError::BadId),
        },
        _ => Err(DecodeError::BadMarker),
    }
}

/// What key `key` of object `m` holds, as far as the log format cares.
pub open spec fn field_of(m: Document, key: Seq<char>) -> Field {
    if !object_keys(m).contains(key) {
        Field::Absent
    } else {
        match field_bool(m, key) {
            Some(b) => Field::Bool(b),
            None => match field_u64(m, key) {
                Some(n) => Field::UInt(n),
                None => Field::Other,
            },
        }
    }
}

/// The record that a JSON object of the log stands for: its `id` and
/// `deleted` fields decide, and the other fields are the payload.
pub open spec fn record_of(m: Document) -> Result<Record<Document>, DecodeError> {
    decoded(
        field_of(m, "id"@),
        field_of(m, "deleted"@),
        object_without(object_without(m, "id"@), "deleted"@),
    )
}

/// The record that the first JSON value of `rest` stands for.
pub open spec fn value_record(rest: Seq<u8>) -> Result<Record<Document>, DecodeError> {
    match json_object_next(rest) {
        Some(m) => record_of(m),
        None => Err(DecodeError::NotAnObject),
    }
}

fn classify(m: &Document, key: &str) -> (r: Field)
    ensures
        r == field_of(*m, key@),
{
    if !has_field(m, key) {
        Field::Absent
    } else {
        match get_bool(m, key) {
            Some(b) => Field::Bool(b),
            None => match get_u64(m, key) {
                Some(n) => Field::UInt(n),
                None => Field::Other,
            },
        }
    }
}

/// Decodes one JSON object of the log into a record. The payload of an
/// upsert never holds the `id` or `deleted` key.
pub fn decode_object(m: Document) -> (r: Result<Record<Document>, DecodeError>)
    ensures
        r == record_of(m),
        r matches Ok(Record::Upsert(u)) ==> !object_keys(u.data.data).contains("id"@)
            && !object_keys(u.data.data).contains("deleted"@),
{
    let id = classify(&m, "id");
    let marker = classify(&m, "deleted");
    let mut rest = m;
    remove_field(&mut rest, "id");
    remove_field(&mut rest, "deleted");
    proof {
        assert(object_keys(rest) =~= object_keys(m).remove("id"@).remove("deleted"@));
    }
    decode_fields(id, marker, rest)
}

/// The decimal digits of `n`, most significant first.
pub open spec fn decimal(n: nat) -> Seq<u8>
    decreases n,
{
    if n < 10 {
        seq![(48 + n) as u8]
    } else {
        decimal(n / 10) + seq![(48 + n % 10) as u8]
    }
}

/// `{"id":`
pub open spec fn id_prefix() -> Seq<u8> {
    seq![0x7bu8, 0x22u8, 0x69u8, 0x64u8, 0x22u8, 0x3au8]
}

/// `,"deleted":true}`
pub open spec fn deleted_suffix() -> Seq<u8> {
    seq![
        0x2cu8, 0x22u8, 0x64u8, 0x65u8, 0x6cu8, 0x65u8, 0x74u8, 0x65u8, 0x64u8, 0x22u8, 0x3au8,
        0x74u8, 0x72u8, 0x75u8, 0x65u8, 0x7du8,
    ]
}

/// The log line of a tombstone for `id`.
pub open spec fn tombstone_line(id: RecordId) -> Seq<u8> {
    id_prefix() + decimal(id as nat) + deleted_suffix() + seq![0x0au8]
}

/// The log line of an upsert for `id` whose payload serializes to `body`:
/// the `id` member is merged in front of the payload's own members.
pub open spec fn upsert_line(id: RecordId, body: Seq<u8>) -> Seq<u8> {
    id_prefix() + decimal(id as nat) + (if body.len() <= 2 {
        seq![0x7du8]
    } else {
        seq![0x2cu8] + body.subrange(1, body.len() as int)
    }) + seq![0x0au8]
}

/// The log line of a record, where its payload serializes.
pub open spec fn line_of(r: Record<Document>) -> Seq<u8> {
    match r {
        Record::Upsert(u) => upsert_line(u.data.id, object_text(u.data.data)),
        Record::Delete(d) => tombstone_line(d.id),
    }
}

fn push_decimal(out: &mut Vec<u8>, n: u32)
    ensures
        final(out)@ == old(out)@ + decimal(n as nat),
    decreases n,
{
    if n >= 10 {
        push_decimal(out, n / 10);
    }
    out.push(48u8 + (n % 10) as u8);
    proof {
        assert(final(out)@ =~= old(out)@ + decimal(n as nat));
    }
}

fn push_from(out: &mut Vec<u8>, bytes: &[u8], from: usize)
    requires
        from <= bytes@.len(),
    ensures
        final(out)@ == old(out)@ + bytes@.subrange(from as int, bytes@.len() as int),
{
    let mut i: usize = from;
    while i < bytes.len()
        invariant
            from <= i <= bytes@.len(),
            out@ == old(out)@ + bytes@.subrange(from as int, i as int),
        decreases bytes.len() - i,
    {
        out.push(bytes[i]);
        i = i + 1;
        assert(out@ =~= old(out)@ + bytes@.subrange(from as int, i as int));
    }
}

/// Encodes a record as one log line.
pub fn encode_record(r: &Record<Document>) -> (line: Vec<u8>)
    ensures
        line@ == line_of(*r),
{
    let mut out: Vec<u8> = Vec::new();
    push_from(&mut out, &[0x7bu8, 0x22u8, 0x69u8, 0x64u8, 0x22u8, 0x3au8], 0);
    push_decimal(&mut out, r.id());
    match r {
        Record::Delete(_) => {
            push_from(
                &mut out,
                &[
                    0x2cu8, 0x22u8, 0x64u8, 0x65u8, 0x6cu8, 0x65u8, 0x74u8, 0x65u8, 0x64u8, 0x22u8,
                    0x3au8, 0x74u8, 0x72u8, 0x75u8, 0x65u8, 0x7du8,
                ],
                0,
            );
        },
        Record::Upsert(u) => {
            let body = object_json(&u.data.data);
            if body.len() <= 2 {
                out.push(0x7du8);
            } else {
                out.push(0x2cu8);
                push_from(&mut out, body.as_slice(), 1);
            }
        },
    }
    out.push(0x0au8);
    proof {
        assert(out@ =~= line_of(*r));
    }
    out
}

} // verus!
