use jsondb::codec::{decode_fields, decode_object, encode_record, DecodeError, Field};
use jsondb::{CacheTag, Database, DbError, DefaultCacheTag, Document, HashCacheTag, Record};
use serde_json::Value;
use std::collections::hash_map::DefaultHasher;
use std::hash::Hasher;

fn parse(text: &str) -> Document {
    serde_json::from_str(text).unwrap()
}

#[test]
fn tombstone_dispatch() {
    let r = decode_fields(Field::UInt(5), Field::Bool(true), Document::new());
    assert_eq!(r, Ok(Record::delete(5)));
}

#[test]
fn upsert_dispatch_with_false_marker() {
    let mut m = Document::new();
    m.insert("k".to_string(), Value::from(1));
    let r = decode_fields(Field::UInt(5), Field::Bool(false), m.clone());
    assert_eq!(r, Ok(Record::upsert(5, m.clone())));
    let r = decode_fields(Field::UInt(5), Field::Absent, m.clone());
    assert_eq!(r, Ok(Record::upsert(5, m)));
}

#[test]
fn dispatch_errors() {
    assert_eq!(
        decode_fields(Field::Other, Field::Absent, Document::new()),
        Err(DecodeError::BadId)
    );
    assert_eq!(
        decode_fields(Field::UInt(1 << 32), Field::Bool(true), Document::new()),
        Err(DecodeError::BadId)
    );
    assert_eq!(
        decode_fields(Field::UInt(1), Field::Other, Document::new()),
        Err(DecodeError::BadMarker)
    );
    assert_eq!(
        decode_fields(Field::UInt(1), Field::UInt(1), Document::new()),
        Err(DecodeError::BadMarker)
    );
}

#[test]
fn decode_strips_id_and_marker() {
    let r = decode_object(parse(r#"{"id":3,"deleted":false,"x":"y"}"#)).unwrap();
    let mut m = Document::new();
    m.insert("x".to_string(), Value::from("y"));
    assert_eq!(r, Record::upsert(3, m));
    let r = decode_object(parse(r#"{"id":3,"deleted":true}"#)).unwrap();
    assert_eq!(r, Record::delete(3));
}

#[test]
fn decode_errors() {
    assert_eq!(decode_object(parse(r#"{"a":1}"#)), Err(DecodeError::BadId));
    assert_eq!(decode_object(parse(r#"{"id":-1}"#)), Err(DecodeError::BadId));
    assert_eq!(decode_object(parse(r#"{"id":1.5}"#)), Err(DecodeError::BadId));
    assert_eq!(decode_object(parse(r#"{"id":1,"deleted":"x"}"#)), Err(DecodeError::BadMarker));
}

#[test]
fn bad_records_stop_replay() {
    let mut db = Database::new(0);
    let log = b"{\"id\":1}\n[1]\n";
    assert_eq!(db.reload(log), Err(DbError::BadRecord(DecodeError::NotAnObject)));
    assert_eq!(db.log_records().len(), 1);
    assert_eq!(db.reload(log), Err(DbError::BadRecord(DecodeError::NotAnObject)));
    assert_eq!(db.log_records().len(), 1);
}

#[test]
fn encodes_lines() {
    assert_eq!(
        encode_record(&Record::delete(1234567890)),
        b"{\"id\":1234567890,\"deleted\":true}\n".to_vec()
    );
    assert_eq!(encode_record(&Record::delete(0)), b"{\"id\":0,\"deleted\":true}\n".to_vec());
    let mut m = Document::new();
    m.insert("z".to_string(), Value::from("q\n"));
    m.insert("a".to_string(), Value::Null);
    assert_eq!(
        encode_record(&Record::upsert(70, m)),
        b"{\"id\":70,\"z\":\"q\\n\",\"a\":null}\n".to_vec()
    );
    assert_eq!(encode_record(&Record::upsert(4294967295, Document::new())), b"{\"id\":4294967295}\n".to_vec());
}

#[test]
fn record_accessors() {
    let r: Record<Document> = Record::delete(8);
    assert_eq!(r.id(), 8);
    assert!(r.data().is_none());
    let r = Record::upsert(9, Document::new());
    assert_eq!(r.id(), 9);
    assert_eq!(r.data().unwrap().id, 9);
    if let Record::Upsert(u) = &r {
        assert_eq!(u.id(), 9);
    }
    if let Record::Delete(d) = Record::<Document>::delete(3) {
        assert_eq!(d.id(), 3);
        assert!(d.deleted.value());
    }
}

#[test]
fn counting_tag_values() {
    let mut t = DefaultCacheTag::default();
    assert_eq!(CacheTag::<u8>::tag(&t), 0x6e2797fa0b96b68f);
    CacheTag::<u8>::process_value(&mut t, &1);
    CacheTag::<u8>::process_value(&mut t, &2);
    assert_eq!(CacheTag::<u8>::tag(&t), 2 ^ 0x6e2797fa0b96b68f);
}

fn hashed(log: &[u8]) -> u64 {
    let db = Database::open(log).unwrap();
    let db = db.with_cache_tag(HashCacheTag::new(DefaultHasher::new()));
    db.cache_tag()
}

#[test]
fn hashing_tag_sees_payloads() {
    let a = hashed(b"{\"id\":1,\"a\":\"x\"}\n");
    let b = hashed(b"{\"id\":1,\"a\":\"y\"}\n");
    let c = hashed(b"{\"id\":1,\"a\":\"x\"}\n");
    assert_ne!(a, b);
    assert_eq!(a, c);
    let counting_a = Database::open(b"{\"id\":1,\"a\":\"x\"}\n").unwrap().cache_tag();
    let counting_b = Database::open(b"{\"id\":1,\"a\":\"y\"}\n").unwrap().cache_tag();
    assert_eq!(counting_a, counting_b);
}

#[test]
fn hashing_tag_moves_on_append() {
    let mut log: Vec<u8> = Vec::new();
    let db = Database::open(&log).unwrap();
    let mut db = db.with_cache_tag(HashCacheTag::new(DefaultHasher::new()));
    let t0 = db.cache_tag();
    db.insert(&mut log, Document::new()).unwrap();
    assert_ne!(db.cache_tag(), t0);
}

#[test]
fn hashing_tag_hashes_log_lines() {
    let log = b"{\"id\":1,\"a\":\"x\"}\n{\"id\":1,\"deleted\":true}\n";
    let tag = hashed(log);
    let mut h = DefaultHasher::new();
    h.write(b"{\"id\":1,\"a\":\"x\"}\n");
    h.write(b"{\"id\":1,\"deleted\":true}\n");
    assert_eq!(tag, h.finish());
    assert_eq!(HashCacheTag::new(DefaultHasher::new()).hasher.finish(), DefaultHasher::new().finish());
}

#[test]
fn switching_to_counting_tag_counts_history() {
    let log = b"{\"id\":1,\"a\":\"x\"}\n{\"id\":1,\"deleted\":true}\n{\"id\":2}\n";
    let db = Database::open(log).unwrap();
    let db = db.with_cache_tag(DefaultCacheTag::default());
    assert_eq!(db.cache_tag(), 3 ^ 0x6e2797fa0b96b68f);
}
