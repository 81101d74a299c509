use jsondb::{Database, DbError, Document, OpenOptions, Record, RecordData};
use serde_json::Value;

fn obj(a: &str, b: i64, c: Option<i64>) -> Document {
    let mut m = Document::new();
    m.insert("a".to_string(), Value::from(a));
    m.insert("b".to_string(), Value::from(b));
    if let Some(c) = c {
        m.insert("c".to_string(), Value::from(c));
    }
    m
}

fn data(id: u32, d: Document) -> RecordData<Document> {
    RecordData { id, data: d }
}

const CONTENTS: &str = r#"
        {"id":1,"a":"foo","b":33,"c":99}
        {"id":2,"a":"bar","b":66}
        {"id":1,"a":"qwe","b":9}
        {"id":3,"a":"hello","b":0}
        {"id":2,"deleted":true}
    "#;

#[test]
fn read_test() {
    let stream = CONTENTS.as_bytes();
    let mut database = Database::new(0);

    database.reload(stream).unwrap();

    let entries = database.records();

    assert_eq!(
        entries,
        vec![&data(1, obj("qwe", 9, None)), &data(3, obj("hello", 0, None))],
    );
}

#[test]
fn partial_read_test() {
    let database_contents = r#"
        {"id":1,"a":"foo","b":33,"c":99}
        {"id":2,"a":"bar","b":66}
        {"id":1,"a":"
    "#;

    let mut database = Database::new(0);

    assert!(database.reload(database_contents.as_bytes()).is_err());
}

#[test]
fn write_test() {
    let mut database_contents = Vec::from(CONTENTS.as_bytes());
    let mut database = Database::new(0);

    database.reload(&database_contents).unwrap();

    database.insert(&mut database_contents, obj("beep", 1, Some(2))).unwrap();
    database.delete(&mut database_contents, 1).unwrap();
    database
        .upsert(&mut database_contents, 3, |d: Option<&Document>| {
            d.cloned().map(|mut d| {
                d.insert("c".to_string(), Value::from(123));
                d
            })
        })
        .unwrap();

    let entries = database.records();

    assert_eq!(
        entries,
        vec![&data(3, obj("hello", 0, Some(123))), &data(4, obj("beep", 1, Some(2)))],
    );

    database.close();

    let reread = Database::open(&database_contents).unwrap();
    let records = reread.log_records().clone();

    assert_eq!(
        records,
        vec![
            Record::upsert(1, obj("foo", 33, Some(99))),
            Record::upsert(2, obj("bar", 66, None)),
            Record::upsert(1, obj("qwe", 9, None)),
            Record::upsert(3, obj("hello", 0, None)),
            Record::delete(2),
            Record::upsert(4, obj("beep", 1, Some(2))),
            Record::delete(1),
            Record::upsert(3, obj("hello", 0, Some(123))),
        ]
    );
}

#[test]
fn file_test() {
    let mut log: Vec<u8> = Vec::new();

    let mut database = Database::open(&log).unwrap();
    database.reload(&log).unwrap();
    assert_eq!(database.record_count(), 0);

    let o = obj("", 0, None);
    let id = database.insert(&mut log, o.clone()).unwrap();
    assert_eq!(database.record_count(), 1);

    database.close();

    let mut database = Database::open(&log).unwrap();
    database.reload(&log).unwrap();
    assert_eq!(database.record_count(), 1);

    assert_eq!(database.get(id), Some(&RecordData { id, data: o.clone() }));

    database.close();
}

#[test]
fn parallel_write_test() {
    let mut log: Vec<u8> = Vec::new();

    let mut a = Database::open(&log).unwrap();
    assert_eq!(a.record_count(), 0);
    let mut b = Database::open(&log).unwrap();
    assert_eq!(b.record_count(), 0);

    let id = a.insert(&mut log, obj("a", 1, None)).unwrap();
    assert_eq!(id, 1);
    assert_eq!(a.record_count(), 1);

    b.reload(&log).unwrap();
    assert_eq!(b.record_count(), 1);
    assert_eq!(b.get(1), Some(&data(1, obj("a", 1, None))));

    b.delete(&mut log, 1).unwrap();
    assert_eq!(b.record_count(), 0);

    a.reload(&log).unwrap();
    assert_eq!(a.record_count(), 0);

    a.close();
    b.close();
}

#[test]
fn replay_reproduces_live_view() {
    let mut log: Vec<u8> = Vec::new();
    let mut db = Database::open(&log).unwrap();
    db.insert(&mut log, obj("x", 1, None)).unwrap();
    db.insert(&mut log, obj("y", 2, Some(3))).unwrap();
    db.upsert(&mut log, 1, |_: Option<&Document>| Some(obj("z", 5, None))).unwrap();
    db.delete(&mut log, 2).unwrap();
    db.insert(&mut log, Document::new()).unwrap();
    let again = Database::open(&log).unwrap();
    assert_eq!(db.records(), again.records());
    assert_eq!(db.records_include_deleted(), again.records_include_deleted());
    assert_eq!(db.log_records(), again.log_records());
}

#[test]
fn last_write_wins() {
    let log = b"{\"id\":1,\"a\":\"x\"}\n{\"id\":1,\"a\":\"y\"}\n";
    let db = Database::open(log).unwrap();
    let mut y = Document::new();
    y.insert("a".to_string(), Value::from("y"));
    assert_eq!(db.records(), vec![&data(1, y)]);
}

#[test]
fn tombstone_hides_history_recovers() {
    let log = b"{\"id\":2,\"a\":\"p\"}\n{\"id\":2,\"deleted\":true}\n";
    let db = Database::open(log).unwrap();
    let mut p = Document::new();
    p.insert("a".to_string(), Value::from("p"));
    assert!(db.records().is_empty());
    assert_eq!(db.records_include_deleted(), vec![&data(2, p)]);
    assert_eq!(db.get(2), None);
    assert_eq!(db.record_count(), 0);
}

#[test]
fn ids_never_reused() {
    let mut log: Vec<u8> = Vec::new();
    let mut db = Database::open(&log).unwrap();
    for n in 1..=5u32 {
        assert_eq!(db.insert(&mut log, obj("n", n as i64, None)).unwrap(), n);
    }
    db.delete(&mut log, 2).unwrap();
    assert_eq!(db.insert(&mut log, obj("next", 0, None)).unwrap(), 6);
    let again = Database::open(&log).unwrap();
    let mut again = again;
    assert_eq!(again.insert(&mut log, obj("after", 0, None)).unwrap(), 7);
}

#[test]
fn ids_follow_highest_seen() {
    let mut log = Vec::from(&b"{\"id\":41,\"deleted\":true}\n"[..]);
    let mut db = Database::open(&log).unwrap();
    assert_eq!(db.insert(&mut log, Document::new()).unwrap(), 42);
}

#[test]
fn reload_twice_changes_nothing() {
    let stream = CONTENTS.as_bytes();
    let mut db = Database::new(0);
    db.reload(stream).unwrap();
    let n = db.log_records().len();
    let live = db.records().into_iter().cloned().collect::<Vec<_>>();
    let tag = db.cache_tag();
    db.reload(stream).unwrap();
    assert_eq!(db.log_records().len(), n);
    assert_eq!(db.records().into_iter().cloned().collect::<Vec<_>>(), live);
    assert_eq!(db.cache_tag(), tag);
    assert!(db.is_at_end(stream.len()));
}

#[test]
fn truncated_log_keeps_prior_records() {
    let mut log = Vec::from(&b"{\"id\":7,\"a\":\"ok\"}\n{\"id\":1,\"a\":\""[..]);
    let mut db = Database::new(0);
    assert_eq!(db.reload(&log), Err(DbError::Truncated));
    assert_eq!(db.record_count(), 1);
    assert!(db.get(7).is_some());
    log.extend_from_slice(b"rest\"}\n");
    db.reload(&log).unwrap();
    assert_eq!(db.record_count(), 2);
}

#[test]
fn malformed_log_is_an_error() {
    let mut db = Database::new(0);
    assert_eq!(db.reload(b"{\"id\":1} }"), Err(DbError::Malformed));
    assert_eq!(db.record_count(), 1);
}

#[test]
fn counting_tag_moves_on_every_append() {
    let mut log: Vec<u8> = Vec::new();
    let mut db = Database::open(&log).unwrap();
    let t0 = db.cache_tag();
    assert_eq!(t0, 0x6e2797fa0b96b68f);
    assert_eq!(db.cache_tag(), t0);
    db.insert(&mut log, obj("a", 1, None)).unwrap();
    let t1 = db.cache_tag();
    assert_ne!(t1, t0);
    assert_eq!(t1, 1 ^ 0x6e2797fa0b96b68f);
    db.upsert(&mut log, 1, |_: Option<&Document>| Some(obj("b", 2, None))).unwrap();
    let t2 = db.cache_tag();
    assert_ne!(t2, t1);
    db.delete(&mut log, 1).unwrap();
    let t3 = db.cache_tag();
    assert_ne!(t3, t2);
    assert_eq!(db.cache_tag(), t3);
}

#[test]
fn upsert_without_payload_on_absent_id_is_a_no_op() {
    let mut log: Vec<u8> = Vec::new();
    let mut db = Database::open(&log).unwrap();
    db.upsert(&mut log, 9, |_: Option<&Document>| None).unwrap();
    assert!(log.is_empty());
    assert!(db.log_records().is_empty());
}

#[test]
fn upsert_without_payload_on_live_id_deletes() {
    let mut log: Vec<u8> = Vec::new();
    let mut db = Database::open(&log).unwrap();
    let id = db.insert(&mut log, obj("a", 1, None)).unwrap();
    db.upsert(&mut log, id, |d: Option<&Document>| {
        assert!(d.is_some());
        None
    })
    .unwrap();
    assert_eq!(db.record_count(), 0);
    assert!(log.ends_with(b"{\"id\":1,\"deleted\":true}\n"));
}

#[test]
fn delete_of_unknown_id_is_kept_but_invisible() {
    let mut log: Vec<u8> = Vec::new();
    let mut db = Database::open(&log).unwrap();
    db.delete(&mut log, 12).unwrap();
    assert_eq!(log, b"{\"id\":12,\"deleted\":true}\n".to_vec());
    assert_eq!(db.log_records().len(), 1);
    assert!(db.records().is_empty());
    assert!(db.records_include_deleted().is_empty());
}

#[test]
fn read_only_store_refuses_writes() {
    let mut log = Vec::from(&b"{\"id\":1,\"a\":\"x\"}\n"[..]);
    let mut db = OpenOptions::new().read_only(true).open(&log).unwrap();
    assert_eq!(db.insert(&mut log, Document::new()), Err(DbError::ReadOnly));
    assert_eq!(db.delete(&mut log, 1), Err(DbError::ReadOnly));
    assert_eq!(log, b"{\"id\":1,\"a\":\"x\"}\n".to_vec());
    assert_eq!(db.record_count(), 1);
}

#[test]
fn stale_end_is_a_conflict() {
    let log = Vec::from(&b"{\"id\":1,\"a\":\"x\"}\n"[..]);
    let mut db = Database::open(&log).unwrap();
    assert_eq!(db.catch_up(&log, log.len() + 3), Err(DbError::Conflict));
    assert_eq!(db.catch_up(&log, log.len()), Ok(()));
}

#[test]
fn exhausted_ids_are_reported() {
    let mut log = Vec::from(&b"{\"id\":4294967295,\"a\":\"x\"}\n"[..]);
    let mut db = Database::open(&log).unwrap();
    assert_eq!(db.insert(&mut log, Document::new()), Err(DbError::IdsExhausted));
}

#[test]
fn insert_writes_id_first() {
    let mut log: Vec<u8> = Vec::new();
    let mut db = Database::open(&log).unwrap();
    db.insert(&mut log, obj("x", 1, Some(2))).unwrap();
    db.insert(&mut log, Document::new()).unwrap();
    assert_eq!(
        log,
        b"{\"id\":1,\"a\":\"x\",\"b\":1,\"c\":2}\n{\"id\":2}\n".to_vec()
    );
}
