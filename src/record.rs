//! One entry of the log, and a document paired with its identifier.
use vstd::prelude::*;

use crate::boolean::{False, True};

verus! {

/// Identifier of a document: allocated from 1 upwards, never reused.
pub type RecordId = u32;

/// The payload of a record: a JSON object without the `id` and `deleted` keys.
pub type Document = serde_json::Map<String, serde_json::Value>;

/// A document together with its identifier.
#[derive(Clone, Debug, PartialEq, Eq)]
pub struct RecordData<T> {
    pub id: RecordId,
    pub data: T,
}

/// A record that sets the payload of an identifier.
#[derive(Clone, Debug, PartialEq, Eq)]
pub struct UpsertRecord<T> {
    pub deleted: False,
    pub data: RecordData<T>,
}

impl<T> UpsertRecord<T> {
    pub fn id(&self) -> (r: RecordId)
        ensures
            r == self.data.id,
    {
        self.data.id
    }
}

/// A tombstone: marks an identifier as deleted.
#[derive(Clone, Debug, PartialEq, Eq)]
pub struct DeleteRecord {
    pub id: RecordId,
    pub deleted: True,
}

impl DeleteRecord {
    pub fn id(&self) -> (r: RecordId)
        ensures
            r == self.id,
    {
        self.id
    }
}

/// One log entry.
#[derive(Clone, Debug, PartialEq, Eq)]
pub enum Record<T> {
    Upsert(UpsertRecord<T>),
    Delete(DeleteRecord),
}

impl<T> Record<T> {
    pub open spec fn spec_id(&self) -> RecordId {
        match self {
            Record::Upsert(u) => u.data.id,
            Record::Delete(d) => d.id,
        }
    }

    pub open spec fn spec_data(&self) -> Option<RecordData<T>> {
        match self {
            Record::Upsert(u) => Some(u.data),
            Record::Delete(_) => None,
        }
    }

    pub open spec fn upsert_spec(id: RecordId, data: T) -> Record<T> {
        Record::Upsert(UpsertRecord { deleted: False, data: RecordData { id, data } })
    }

    pub open spec fn delete_spec(id: RecordId) -> Record<T> {
        Record::Delete(DeleteRecord { id, deleted: True })
    }

    pub fn upsert(id: RecordId, data: T) -> (r: Record<T>)
        ensures
            r == Self::upsert_spec(id, data),
    {
        Record::Upsert(UpsertRecord { deleted: False, data: RecordData { id, data } })
    }

    pub fn delete(id: RecordId) -> (r: Record<T>)
        ensures
            r == Self::delete_spec(id),
    {
        Record::Delete(DeleteRecord { id, deleted: True })
    }

    pub fn id(&self) -> (r: RecordId)
        ensures
            r == self.spec_id(),
    {
        match self {
            Record::Upsert(record) => record.id(),
            Record::Delete(record) => record.id(),
        }
    }

    pub fn data(&self) -> (r: Option<&RecordData<T>>)
        ensures
            r.is_some() == self.spec_data().is_some(),
            r.is_some() ==> *r.unwrap() == self.spec_data().unwrap(),
    {
        match self {
            Record::Upsert(record) => Some(&record.data),
            Record::Delete(_) => None,
        }
    }
}

} // verus!
