//! The storage engine: replay of the log into a history, the views over it,
//! and the append protocol.
use vstd::prelude::*;

use crate::cache_tag::{
    folded_seq, lemma_folded_seq_empty, lemma_folded_seq_push, CacheTag, DefaultCacheTag,
};
use crate::codec::{decode_object, encode_record, line_of, value_record, DecodeError};
use crate::json::{json_next, scan_value, ScanShape, Scanned};
use crate::record::{Document, Record, RecordData, RecordId};
use crate::views::{entry_of, find_slot, is_view, lemma_view_len, live_entry, materialize, shown_ids};

verus! {

/// Why an operation on the store failed.
#[derive(Clone, Copy, Debug, PartialEq, Eq)]
pub enum DbError {
    /// The log ends in the middle of a JSON value.
    Truncated,
    /// The log holds bytes that are not JSON.
    Malformed,
    /// A JSON value of the log is not a record.
    BadRecord(DecodeError),
    /// The log grew after it was last read: nothing was appended.
    Conflict,
    /// No identifier is left to allocate.
    IdsExhausted,
    /// The store was opened read-only.
    ReadOnly,
}

/// How a store is opened.
#[derive(Clone, Copy, Debug, PartialEq, Eq)]
pub struct OpenOptions {
    pub read_only: bool,
}

impl OpenOptions {
    pub fn new() -> (r: OpenOptions)
        ensures
            !r.read_only,
    {
        OpenOptions { read_only: false }
    }

    pub fn read_only(self, read_only: bool) -> (r: OpenOptions)
        ensures
            r.read_only == read_only,
    {
        let mut o = self;
        o.read_only = read_only;
        o
    }

    /// Opens a store over the bytes of a log and replays them.
    pub fn open(self, stream: &[u8]) -> (r: Result<Database<DefaultCacheTag>, DbError>)
        ensures
            Database::<DefaultCacheTag>::opened(stream@, self, r),
            stream@.len() == 0 ==> (r matches Ok(db) && db.history().len() == 0 && db.next_id() == 1),
    {
        Database::<DefaultCacheTag>::open_with_opts(stream, self)
    }
}

impl Default for OpenOptions {
    fn default() -> (r: OpenOptions)
        ensures
            !r.read_only,
    {
        OpenOptions::new()
    }
}

/// One open handle on a log: the records replayed so far, the position up
/// to which the log has been read, the identifier allocator and the change
/// fingerprint.
pub struct Database<C> {
    offset: usize,
    records: Vec<Record<Document>>,
    next_record_id: u64,
    cache_tag: C,
    read_only: bool,
}


/// The next identifier after folding in a record with identifier `id`.
pub open spec fn bumped(next: nat, id: RecordId) -> nat {
    if id >= next {
        (id + 1) as nat
    } else {
        next
    }
}

/// The next identifier after folding in the records `rs`, in order.
pub open spec fn next_after(next: nat, rs: Seq<Record<Document>>) -> nat
    decreases rs.len(),
{
    if rs.len() == 0 {
        next
    } else {
        next_after(bumped(next, rs[0].spec_id()), rs.drop_first())
    }
}

/// What replaying the bytes `s` gives: the records read, in order, the
/// number of bytes they take up, and whether the replay reached the end.
/// Replay stops at the first value that is cut off, is not JSON, or is not
/// a record.
pub open spec fn replay_of(s: Seq<u8>) -> (Seq<Record<Document>>, nat, Result<(), DbError>)
    decreases s.len(),
{
    match json_next(s) {
        ScanShape::End => (Seq::empty(), s.len(), Ok(())),
        ScanShape::Truncated => (Seq::empty(), 0, Err(DbError::Truncated)),
        ScanShape::Malformed => (Seq::empty(), 0, Err(DbError::Malformed)),
        ScanShape::Item(used) => if 0 < used <= s.len() {
            match value_record(s) {
                Ok(rec) => {
                    let t = replay_of(s.subrange(used as int, s.len() as int));
                    (seq![rec] + t.0, (used + t.1) as nat, t.2)
                },
                Err(e) => (Seq::empty(), 0, Err(DbError::BadRecord(e))),
            }
        } else {
            (Seq::empty(), 0, Err(DbError::Malformed))
        },
    }
}

/// A replay that reaches the end has read every byte.
pub proof fn lemma_replay_reads_all(s: Seq<u8>)
    requires
        replay_of(s).2 is Ok,
    ensures
        replay_of(s).1 == s.len(),
    decreases s.len(),
{
    if let ScanShape::Item(used) = json_next(s) {
        if 0 < used <= s.len() {
            lemma_replay_reads_all(s.subrange(used as int, s.len() as int));
        }
    }
}

/// A replay reads at most one record per byte.
pub proof fn lemma_replay_len(s: Seq<u8>)
    ensures
        replay_of(s).0.len() <= s.len(),
    decreases s.len(),
{
    if let ScanShape::Item(used) = json_next(s) {
        if 0 < used <= s.len() {
            lemma_replay_len(s.subrange(used as int, s.len() as int));
        }
    }
}

proof fn lemma_next_after_step(next: nat, rec: Record<Document>, rs: Seq<Record<Document>>)
    ensures
        next_after(next, seq![rec] + rs) == next_after(bumped(next, rec.spec_id()), rs),
{
    assert((seq![rec] + rs).drop_first() =~= rs);
    assert((seq![rec] + rs)[0] == rec);
}

impl<C: CacheTag<Record<Document>>> Database<C> {
    /// Every record replayed or appended so far, in log order.
    pub closed spec fn history(&self) -> Seq<Record<Document>> {
        self.records@
    }

    /// The position in the log up to which it has been read.
    pub closed spec fn offset(&self) -> nat {
        self.offset as nat
    }

    /// The identifier that the next insert allocates.
    pub closed spec fn next_id(&self) -> nat {
        self.next_record_id as nat
    }

    pub closed spec fn tag_state(&self) -> C {
        self.cache_tag
    }

    pub closed spec fn is_read_only(&self) -> bool {
        self.read_only
    }

    pub open spec fn wf(&self) -> bool {
        &&& 1 <= self.next_id() <= u32::MAX + 1
        &&& forall|i: int|
            0 <= i < self.history().len() ==> #[trigger] self.history()[i].spec_id()
                < self.next_id()
        &&& self.next_id() == 1 || exists|i: int|
            0 <= i < self.history().len() && #[trigger] self.history()[i].spec_id() + 1
                == self.next_id()
        &&& self.tag_state().inv()
    }

    /// What replaying the unread part of `stream` gives.
    pub open spec fn pending(&self, stream: Seq<u8>) -> (Seq<Record<Document>>, nat, Result<(), DbError>) {
        replay_of(stream.subrange(self.offset() as int, stream.len() as int))
    }

    /// `after` is `self` with the unread part of `stream` replayed: the
    /// records read are appended to the history, in order, and folded into
    /// the allocator and the fingerprint, and the position moves past them.
    pub open spec fn replay_state(&self, after: &Self, stream: Seq<u8>) -> bool {
        let p = self.pending(stream);
        &&& after.wf()
        &&& after.history() == self.history() + p.0
        &&& after.offset() == self.offset() + p.1
        &&& after.next_id() == next_after(self.next_id(), p.0)
        &&& after.is_read_only() == self.is_read_only()
        &&& after.tag_state().folded() == self.tag_state().folded() + p.0.len()
        &&& folded_seq(self.tag_state(), after.tag_state(), p.0)
    }

    /// What `reload` from `self` over the log bytes `stream` leaves, with result `r`.
    pub open spec fn replayed(&self, after: &Self, stream: Seq<u8>, r: Result<(), DbError>) -> bool {
        &&& self.replay_state(after, stream)
        &&& r == self.pending(stream).2
        &&& r is Ok ==> after.offset() == stream.len()
        &&& self.offset() == stream.len() ==> r is Ok && *after == *self
            && self.pending(stream).0.len() == 0
    }

    /// The live view of the history.
    pub open spec fn live(&self, id: RecordId) -> Option<RecordData<Document>> {
        live_entry(self.history(), id)
    }

    fn handle_record(&mut self, record: Record<Document>)
        requires
            old(self).wf(),
        ensures
            final(self).wf(),
            final(self).history() == old(self).history().push(record),
            final(self).next_id() == bumped(old(self).next_id(), record.spec_id()),
            final(self).offset() == old(self).offset(),
            final(self).is_read_only() == old(self).is_read_only(),
            final(self).tag_state().folded() == old(self).tag_state().folded() + 1,
            final(self).tag_state().stepped(&old(self).tag_state(), record),
    {
        let id = record.id();
        if id as u64 >= self.next_record_id {
            self.next_record_id = id as u64 + 1;
        }
        self.cache_tag.process_value(&record);
        self.records.push(record);
        proof {
            assert forall|i: int| 0 <= i < self.history().len() implies #[trigger] self.history()[
                i
            ].spec_id() < self.next_id() by {
                if i < old(self).history().len() {
                    assert(self.history()[i] == old(self).history()[i]);
                }
            }
            if self.next_id() != 1 {
                if id as u64 >= old(self).next_record_id {
                    assert(self.history()[self.history().len() - 1].spec_id() + 1 == self.next_id());
                } else {
                    let i = choose|i: int|
                        0 <= i < old(self).history().len() && #[trigger] old(self).history()[
                            i
                        ].spec_id() + 1 == old(self).next_id();
                    assert(self.history()[i] == old(self).history()[i]);
                }
            }
        }
    }

    /// Replays the log from where it was last read: every record up to the
    /// first value that is cut off, is not JSON or is not a record is added
    /// to the history, and the position stops before that value; when there
    /// is none, the position moves to the end of `stream`.
    pub fn reload(&mut self, stream: &[u8]) -> (r: Result<(), DbError>)
        requires
            old(self).wf(),
            old(self).offset() <= stream@.len(),
        ensures
            old(self).replayed(final(self), stream@, r),
    {
        let ghost whole = old(self).pending(stream@);
        let ghost h0 = old(self).history();
        let ghost o0 = old(self).offset();
        let ghost n0 = old(self).next_id();
        let ghost f0 = old(self).tag_state().folded();
        assert(self.history() + whole.0 =~= h0 + whole.0);
        assert(self.history().subrange(h0.len() as int, h0.len() as int) =~= Seq::<Record<Document>>::empty());
        proof {
            lemma_folded_seq_empty::<Record<Document>, C>(self.tag_state());
        }
        loop
            invariant
                self.wf(),
                self.is_read_only() == old(self).is_read_only(),
                o0 <= self.offset() <= stream@.len(),
                whole == old(self).pending(stream@),
                h0 == old(self).history(),
                o0 == old(self).offset(),
                n0 == old(self).next_id(),
                f0 == old(self).tag_state().folded(),
                self.history() + self.pending(stream@).0 == h0 + whole.0,
                self.offset() + self.pending(stream@).1 == o0 + whole.1,
                self.pending(stream@).2 == whole.2,
                next_after(self.next_id(), self.pending(stream@).0) == next_after(n0, whole.0),
                self.tag_state().folded() + self.pending(stream@).0.len() == f0 + whole.0.len(),
                self.history().len() >= h0.len(),
                folded_seq(
                    old(self).tag_state(),
                    self.tag_state(),
                    self.history().subrange(h0.len() as int, self.history().len() as int),
                ),
                o0 == stream@.len() ==> *self == *old(self),
            decreases stream@.len() - self.offset(),
        {
            let ghost rest = stream@.subrange(self.offset() as int, stream@.len() as int);
            let ghost here = replay_of(rest);
            match scan_value(stream, self.offset) {
                Scanned::End => {
                    proof {
                        assert(self.history() + here.0 =~= self.history());
                        assert(self.history().subrange(h0.len() as int, self.history().len() as int) =~= whole.0);
                        assert(here.1 == stream@.len() - self.offset());
                        assert(next_after(self.next_id(), here.0) == self.next_id());
                    }
                    let ghost mid = *self;
                    self.offset = stream.len();
                    proof {
                        assert(self.history() == mid.history());
                        assert(self.history().subrange(h0.len() as int, self.history().len() as int) =~= whole.0);
                        if self.next_id() != 1 {
                            let i = choose|i: int|
                                0 <= i < mid.history().len() && #[trigger] mid.history()[i].spec_id()
                                    + 1 == mid.next_id();
                            assert(self.history()[i].spec_id() + 1 == self.next_id());
                        }
                        assert(self.wf());
                        assert(self.history() == old(self).history() + whole.0);
                        assert(self.offset() == old(self).offset() + whole.1);
                        assert(self.next_id() == next_after(old(self).next_id(), whole.0));
                        assert(self.tag_state().folded() == old(self).tag_state().folded() + whole.0.len());
                        assert(old(self).replay_state(self, stream@));
                        if o0 == stream@.len() {
                            assert(*self == *old(self));
                        }
                        assert(old(self).replayed(self, stream@, Ok(())));
                    }
                    return Ok(());
                },
                Scanned::Truncated => {
                    proof {
                        assert(self.history() + here.0 =~= self.history());
                        assert(self.history().subrange(h0.len() as int, self.history().len() as int) =~= whole.0);
                    }
                    return Err(DbError::Truncated);
                },
                Scanned::Malformed => {
                    proof {
                        assert(self.history() + here.0 =~= self.history());
                        assert(self.history().subrange(h0.len() as int, self.history().len() as int) =~= whole.0);
                    }
                    return Err(DbError::Malformed);
                },
                Scanned::NotObject(_) => {
                    proof {
                        assert(self.history() + here.0 =~= self.history());
                        assert(self.history().subrange(h0.len() as int, self.history().len() as int) =~= whole.0);
                    }
                    return Err(DbError::BadRecord(DecodeError::NotAnObject));
                },
                Scanned::Object(m, used) => {
                    match decode_object(m) {
                        Err(e) => {
                            proof {
                                assert(self.history() + here.0 =~= self.history());
                        assert(self.history().subrange(h0.len() as int, self.history().len() as int) =~= whole.0);
                            }
                            return Err(DbError::BadRecord(e));
                        },
                        Ok(record) => {
                            let len = stream.len();
                            assert(used <= len - self.offset);
                            let ghost before = *self;
                            self.handle_record(record);
                            self.offset = self.offset + used;
                            proof {
                                let next_rest = stream@.subrange(
                                    self.offset() as int,
                                    stream@.len() as int,
                                );
                                assert(rest.subrange(used as int, rest.len() as int) =~= next_rest);
                                let t = replay_of(next_rest);
                                assert(here == (seq![record] + t.0, (used + t.1) as nat, t.2));
                                assert(self.history() + t.0 =~= before.history() + (seq![record]
                                    + t.0));
                                lemma_next_after_step(before.next_id(), record, t.0);
                                lemma_folded_seq_push(
                                    old(self).tag_state(),
                                    before.tag_state(),
                                    self.tag_state(),
                                    before.history().subrange(h0.len() as int, before.history().len() as int),
                                    record,
                                );
                                assert(self.history().subrange(h0.len() as int, self.history().len() as int)
                                    =~= before.history().subrange(h0.len() as int, before.history().len() as int).push(record));
                            }
                        },
                    }
                },
            }
        }
    }
}

impl Database<DefaultCacheTag> {
    /// A store that has read nothing yet, positioned at `start` in its log,
    /// with the counting fingerprint.
    pub fn new(start: usize) -> (r: Database<DefaultCacheTag>)
        ensures
            r.wf(),
            r.history() == Seq::<Record<Document>>::empty(),
            r.offset() == start,
            r.next_id() == 1,
            !r.is_read_only(),
            r.tag_state().count() == 0,
            r.tag_state().counter == 0,
    {
        Database {
            offset: start,
            records: Vec::new(),
            next_record_id: 1,
            cache_tag: DefaultCacheTag::new(),
            read_only: false,
        }
    }

    /// Opens a writable store over the bytes of a log and replays them.
    pub fn open(stream: &[u8]) -> (r: Result<Database<DefaultCacheTag>, DbError>)
        ensures
            Self::opened(stream@, OpenOptions { read_only: false }, r),
            stream@.len() == 0 ==> (r matches Ok(db) && db.history().len() == 0 && db.next_id() == 1),
    {
        Database::<DefaultCacheTag>::open_with_opts(stream, OpenOptions::new())
    }

    /// What opening a store over the log bytes `stream` gives: the records of
    /// the whole log, or the error that stopped the replay.
    pub open spec fn opened(
        stream: Seq<u8>,
        opts: OpenOptions,
        r: Result<Database<DefaultCacheTag>, DbError>,
    ) -> bool {
        let p = replay_of(stream);
        match r {
            Ok(db) => {
                &&& p.2 is Ok
                &&& db.wf()
                &&& db.history() == p.0
                &&& db.offset() == stream.len()
                &&& db.next_id() == next_after(1, p.0)
                &&& db.is_read_only() == opts.read_only
                &&& db.tag_state().count() == p.0.len()
            },
            Err(e) => p.2 == Err::<(), DbError>(e),
        }
    }

    /// Opens a store over the bytes of a log and replays them all; fails as
    /// the replay fails.
    pub fn open_with_opts(stream: &[u8], opts: OpenOptions) -> (r: Result<
        Database<DefaultCacheTag>,
        DbError,
    >)
        ensures
            Self::opened(stream@, opts, r),
            stream@.len() == 0 ==> (r matches Ok(db) && db.history().len() == 0 && db.next_id() == 1),
    {
        let mut db = Database::<DefaultCacheTag>::new(0);
        db.read_only = opts.read_only;
        let ghost start = db;
        proof {
            assert(stream@.subrange(0, stream@.len() as int) =~= stream@);
        }
        match db.reload(stream) {
            Ok(()) => {
                proof {
                    assert(db.history() =~= start.history() + replay_of(stream@).0);
                    lemma_replay_reads_all(stream@);
                }
                Ok(db)
            },
            Err(e) => Err(e),
        }
    }
}

impl<C: CacheTag<Record<Document>>> Database<C> {
    /// Releases the store: the handle, and all it holds, is dropped.
    pub fn close(self) {
        let _ = self;
    }

    /// Moves the store to another fingerprint strategy, folding every record
    /// of the history into it.
    pub fn with_cache_tag<C2: CacheTag<Record<Document>>>(self, cache_tag: C2) -> (r: Database<C2>)
        requires
            self.wf(),
            cache_tag.inv(),
        ensures
            r.wf(),
            r.history() == self.history(),
            r.offset() == self.offset(),
            r.next_id() == self.next_id(),
            r.is_read_only() == self.is_read_only(),
            r.tag_state().folded() == cache_tag.folded() + self.history().len(),
            folded_seq(cache_tag, r.tag_state(), self.history()),
    {
        let ghost t0 = cache_tag;
        let mut cache_tag = cache_tag;
        let ghost start = cache_tag.folded();
        assert(self.records@.take(0) =~= Seq::<Record<Document>>::empty());
        proof {
            lemma_folded_seq_empty::<Record<Document>, C2>(t0);
        }
        let mut i: usize = 0;
        while i < self.records.len()
            invariant
                i <= self.records@.len(),
                self.wf(),
                cache_tag.inv(),
                cache_tag.folded() == start + i,
                folded_seq(t0, cache_tag, self.records@.take(i as int)),
            decreases self.records@.len() - i,
        {
            let ghost prev = cache_tag;
            cache_tag.process_value(&self.records[i]);
            proof {
                lemma_folded_seq_push(t0, prev, cache_tag, self.records@.take(i as int), self.records@[i as int]);
                assert(self.records@.take(i + 1) =~= self.records@.take(i as int).push(self.records@[i as int]));
            }
            i = i + 1;
        }
        assert(self.records@.take(self.records@.len() as int) =~= self.records@);
        let ghost h = self.history();
        let r = Database {
            offset: self.offset,
            records: self.records,
            next_record_id: self.next_record_id,
            cache_tag,
            read_only: self.read_only,
        };
        proof {
            assert(r.history() == h);
            assert forall|i: int| 0 <= i < r.history().len() implies #[trigger] r.history()[
                i
            ].spec_id() < r.next_id() by {
                assert(h[i].spec_id() < self.next_id());
            }
        }
        r
    }

    /// Every record replayed or appended so far, in log order.
    pub fn log_records(&self) -> (r: &Vec<Record<Document>>)
        ensures
            r@ == self.history(),
    {
        &self.records
    }

    /// The position in the log up to which it has been read.
    pub fn position(&self) -> (r: usize)
        ensures
            r == self.offset(),
    {
        self.offset
    }

    /// The identifier that the next insert allocates, once caught up.
    pub fn next_record_id(&self) -> (r: u64)
        ensures
            r == self.next_id(),
    {
        self.next_record_id
    }

    /// The current change fingerprint.
    pub fn cache_tag(&self) -> (r: u64)
        ensures
            r == self.tag_state().fingerprint(),
    {
        self.cache_tag.tag()
    }

    /// The live view: the latest payload of every identifier whose latest
    /// record is an upsert, in ascending identifier order.
    pub fn records(&self) -> (r: Vec<&RecordData<Document>>)
        ensures
            is_view(r@, self.history(), false),
    {
        materialize(&self.records, false)
    }

    /// The historical view: the payload of the last upsert of every
    /// identifier ever upserted, deleted or not, in ascending identifier order.
    pub fn records_include_deleted(&self) -> (r: Vec<&RecordData<Document>>)
        ensures
            is_view(r@, self.history(), true),
    {
        materialize(&self.records, true)
    }

    /// The number of entries of the live view.
    pub fn record_count(&self) -> (r: usize)
        ensures
            shown_ids(self.history(), false).finite(),
            r == shown_ids(self.history(), false).len(),
    {
        let v = self.records();
        proof {
            lemma_view_len(v@, self.history(), false);
        }
        v.len()
    }

    /// The live payload of `id`.
    pub fn get(&self, id: RecordId) -> (r: Option<&RecordData<Document>>)
        ensures
            r.is_some() == self.live(id).is_some(),
            r.is_some() ==> *r.unwrap() == self.live(id).unwrap(),
    {
        let v = self.records();
        let p = find_slot(&v, id);
        if p < v.len() && v[p].id == id {
            Some(v[p])
        } else {
            proof {
                if self.live(id).is_some() {
                    assert(entry_of(self.history(), id, false).is_some());
                    let k = choose|k: int| 0 <= k < v@.len() && #[trigger] v@[k].id == id;
                    assert(v@[k].id == id);
                }
            }
            None
        }
    }

    /// Whether the log has been read up to `end`, its length as last observed.
    pub fn is_at_end(&self, end: usize) -> (r: bool)
        ensures
            r == (self.offset() == end),
    {
        self.offset == end
    }

    /// The first steps of every append: refuse on a read-only store, replay
    /// what others appended, and check that nothing was appended since, given
    /// `end`, the length of the log as observed after the replay.
    pub fn catch_up(&mut self, stream: &[u8], end: usize) -> (r: Result<(), DbError>)
        requires
            old(self).wf(),
            old(self).offset() <= stream@.len(),
        ensures
            final(self).wf(),
            old(self).is_read_only() ==> r == Err::<(), DbError>(DbError::ReadOnly) && *final(self)
                == *old(self),
            !old(self).is_read_only() ==> {
                &&& old(self).replay_state(final(self), stream@)
                &&& r == match old(self).pending(stream@).2 {
                    Err(e) => Err(e),
                    Ok(()) => if stream@.len() == end {
                        Ok(())
                    } else {
                        Err(DbError::Conflict)
                    },
                }
                &&& old(self).offset() == stream@.len() ==> *final(self) == *old(self)
                    && old(self).pending(stream@).0.len() == 0 && old(self).pending(stream@).2 is Ok
            },
            r is Ok ==> final(self).offset() == stream@.len(),
    {
        if self.read_only {
            return Err(DbError::ReadOnly);
        }
        let ghost before = *self;
        self.reload(stream)?;
        proof {
            lemma_replay_reads_all(stream@.subrange(before.offset() as int, stream@.len() as int));
        }
        if !self.is_at_end(end) {
            return Err(DbError::Conflict);
        }
        Ok(())
    }

    /// Appends the line of `record` to a log that has been read to its end.
    fn append_record(&mut self, stream: &mut Vec<u8>, record: Record<Document>)
        requires
            old(self).wf(),
            old(self).offset() == old(stream)@.len(),
        ensures
            final(self).wf(),
            final(self).is_read_only() == old(self).is_read_only(),
            final(stream)@ == old(stream)@ + line_of(record),
            final(self).history() == old(self).history().push(record),
            final(self).offset() == final(stream)@.len(),
            final(self).next_id() == bumped(old(self).next_id(), record.spec_id()),
            final(self).tag_state().folded() == old(self).tag_state().folded() + 1,
            final(self).tag_state().stepped(&old(self).tag_state(), record),
    {
        let line = encode_record(&record);
        let n = line.len();
        let mut i: usize = 0;
        while i < n
            invariant
                n == line@.len(),
                i <= n,
                stream@ == old(stream)@ + line@.subrange(0, i as int),
            decreases n - i,
        {
            stream.push(line[i]);
            i = i + 1;
            assert(stream@ =~= old(stream)@ + line@.subrange(0, i as int));
        }
        assert(line@.subrange(0, n as int) =~= line@);
        let total = stream.len();
        assert(total == self.offset + n);
        self.commit(record, n);
    }

    /// The identifier that an insert allocates: the next one, if any is left.
    pub fn allocate_id(&self) -> (r: Result<RecordId, DbError>)
        ensures
            self.next_id() <= u32::MAX ==> r == Ok::<RecordId, DbError>(self.next_id() as RecordId),
            self.next_id() > u32::MAX ==> r == Err::<RecordId, DbError>(DbError::IdsExhausted),
    {
        if self.next_record_id > u32::MAX as u64 {
            Err(DbError::IdsExhausted)
        } else {
            Ok(self.next_record_id as RecordId)
        }
    }

    /// `after` is `self` caught up with the log `before`, with the line of
    /// `record` then appended, giving `written`, and the record folded in.
    pub open spec fn appended(
        &self,
        after: &Self,
        before: Seq<u8>,
        written: Seq<u8>,
        record: Record<Document>,
    ) -> bool {
        let p = self.pending(before);
        &&& after.wf()
        &&& after.history() == (self.history() + p.0).push(record)
        &&& written == before + line_of(record)
        &&& after.offset() == written.len()
        &&& after.next_id() == bumped(next_after(self.next_id(), p.0), record.spec_id())
        &&& after.is_read_only() == self.is_read_only()
        &&& after.tag_state().folded() == self.tag_state().folded() + p.0.len() + 1
        &&& folded_seq(self.tag_state(), after.tag_state(), p.0.push(record))
    }

    /// What an append of `record` to the in-memory log `before` leaves: a
    /// read-only store refuses; a log whose unread part does not replay gives
    /// that error, with what was read kept; otherwise the record is appended.
    pub open spec fn write_outcome(
        &self,
        after: &Self,
        before: Seq<u8>,
        written: Seq<u8>,
        record: Record<Document>,
        r: Result<(), DbError>,
    ) -> bool {
        if self.is_read_only() {
            r == Err::<(), DbError>(DbError::ReadOnly) && *after == *self && written == before
        } else {
            &&& match self.pending(before).2 {
                Err(e) => r == Err::<(), DbError>(e) && self.replay_state(after, before) && written
                    == before,
                Ok(()) => r is Ok && self.appended(after, before, written, record),
            }
            &&& self.offset() == before.len() ==> r is Ok && after.history()
                == self.history().push(record) && after.next_id() == bumped(
                self.next_id(),
                record.spec_id(),
            ) && written == before + line_of(record)
        }
    }

    /// Appends one record by the append protocol, to a log held in memory.
    fn write_record(&mut self, stream: &mut Vec<u8>, record: Record<Document>) -> (r: Result<
        (),
        DbError,
    >)
        requires
            old(self).wf(),
            old(self).offset() <= old(stream)@.len(),
        ensures
            final(self).wf(),
            old(self).write_outcome(final(self), old(stream)@, final(stream)@, record, r),
    {
        let end = stream.len();
        let ghost before = *self;
        let caught = self.catch_up(stream.as_slice(), end);
        match caught {
            Err(e) => Err(e),
            Ok(()) => {
                let ghost mid = *self;
                self.append_record(stream, record);
                proof {
                    lemma_folded_seq_push(
                        before.tag_state(),
                        mid.tag_state(),
                        self.tag_state(),
                        before.pending(old(stream)@).0,
                        record,
                    );
                    if before.offset() == old(stream)@.len() {
                        assert(before.history() + before.pending(old(stream)@).0 =~= before.history());
                    }
                }
                Ok(())
            },
        }
    }

    /// Inserts a document under a newly allocated identifier, which exceeds
    /// every identifier that the history held, and returns it.
    pub fn insert(&mut self, stream: &mut Vec<u8>, data: Document) -> (r: Result<RecordId, DbError>)
        requires
            old(self).wf(),
            old(self).offset() <= old(stream)@.len(),
        ensures
            final(self).wf(),
            old(self).is_read_only() ==> r == Err::<RecordId, DbError>(DbError::ReadOnly)
                && *final(self) == *old(self) && final(stream)@ == old(stream)@,
            !old(self).is_read_only() ==> {
                let p = old(self).pending(old(stream)@);
                let n = next_after(old(self).next_id(), p.0);
                match p.2 {
                    Err(e) => r == Err::<RecordId, DbError>(e) && old(self).replay_state(
                        final(self),
                        old(stream)@,
                    ) && final(stream)@ == old(stream)@,
                    Ok(()) => if n > u32::MAX {
                        r == Err::<RecordId, DbError>(DbError::IdsExhausted) && old(
                            self,
                        ).replay_state(final(self), old(stream)@) && final(stream)@ == old(
                            stream,
                        )@
                    } else {
                        r == Ok::<RecordId, DbError>(n as RecordId) && old(self).appended(
                            final(self),
                            old(stream)@,
                            final(stream)@,
                            Record::upsert_spec(n as RecordId, data),
                        )
                    },
                }
            },
            r matches Ok(id) ==> {
                &&& forall|i: int|
                    0 <= i < final(self).history().len() - 1
                        ==> #[trigger] final(self).history()[i].spec_id() < id
                &&& id == 1 || exists|i: int|
                    0 <= i < final(self).history().len() - 1
                        && #[trigger] final(self).history()[i].spec_id() + 1 == id
            },
            !old(self).is_read_only() && old(self).offset() == old(stream)@.len() ==> {
                &&& old(self).next_id() <= u32::MAX ==> r == Ok::<RecordId, DbError>(
                    old(self).next_id() as RecordId,
                ) && final(self).history() == old(self).history().push(
                    Record::upsert_spec(old(self).next_id() as RecordId, data),
                ) && final(stream)@ == old(stream)@ + line_of(
                    Record::upsert_spec(old(self).next_id() as RecordId, data),
                )
                &&& old(self).next_id() > u32::MAX ==> r == Err::<RecordId, DbError>(
                    DbError::IdsExhausted,
                )
            },
    {
        let end = stream.len();
        let ghost before = *self;
        self.catch_up(stream.as_slice(), end)?;
        let id = self.allocate_id()?;
        let ghost mid = *self;
        self.append_record(stream, Record::upsert(id, data));
        proof {
            lemma_folded_seq_push(
                before.tag_state(),
                mid.tag_state(),
                self.tag_state(),
                before.pending(old(stream)@).0,
                Record::upsert_spec(id, data),
            );
            assert(self.history().drop_last() =~= mid.history());
            assert forall|i: int| 0 <= i < self.history().len() - 1 implies #[trigger] self.history()[
                i
            ].spec_id() < id by {
                assert(self.history()[i] == mid.history()[i]);
            }
            if id != 1 {
                let i = choose|i: int|
                    0 <= i < mid.history().len() && #[trigger] mid.history()[i].spec_id() + 1
                        == mid.next_id();
                assert(self.history()[i] == mid.history()[i]);
            }
            if before.offset() == old(stream)@.len() {
                assert(before.history() + before.pending(old(stream)@).0 =~= before.history());
            }
        }
        Ok(id)
    }

    /// Appends a tombstone for `id`, whether or not `id` is live.
    pub fn delete(&mut self, stream: &mut Vec<u8>, id: RecordId) -> (r: Result<(), DbError>)
        requires
            old(self).wf(),
            old(self).offset() <= old(stream)@.len(),
        ensures
            final(self).wf(),
            old(self).write_outcome(
                final(self),
                old(stream)@,
                final(stream)@,
                Record::<Document>::delete_spec(id),
                r,
            ),
    {
        self.write_record(stream, Record::delete(id))
    }

    /// Replaces the live payload of `id` by what `f` makes of it: `f` gets the
    /// live payload, if any; a new payload is written as an upsert, and no
    /// payload writes a tombstone if `id` was live, and nothing otherwise.
    pub fn upsert<F>(&mut self, stream: &mut Vec<u8>, id: RecordId, f: F) -> (r: Result<(), DbError>)
        where
            F: FnOnce(Option<&Document>) -> Option<Document>,
        requires
            old(self).wf(),
            old(self).offset() <= old(stream)@.len(),
            forall|d: Option<&Document>| #[trigger] f.requires((d,)),
        ensures
            final(self).wf(),
            exists|out: Option<Document>|
                {
                    &&& f.ensures((Self::live_payload(old(self).live(id)),), out)
                    &&& match Self::resolution(old(self).live(id), id, out) {
                        None => r is Ok && *final(self) == *old(self)
                            && final(stream)@ == old(stream)@,
                        Some(rec) => old(self).write_outcome(
                            final(self),
                            old(stream)@,
                            final(stream)@,
                            rec,
                            r,
                        ),
                    }
                },
    {
        let current: Option<&Document> = match self.get(id) {
            Some(d) => Some(&d.data),
            None => None,
        };
        let had = current.is_some();
        let out = f(current);
        match out {
            Some(data) => self.write_record(stream, Record::upsert(id, data)),
            None => {
                if had {
                    self.write_record(stream, Record::delete(id))
                } else {
                    Ok(())
                }
            },
        }
    }


    /// The last step of an append: fold in the record whose line of
    /// `written` bytes was appended at the end of the log.
    pub fn commit(&mut self, record: Record<Document>, written: usize) -> (r: ())
        requires
            old(self).wf(),
            old(self).offset() + written <= usize::MAX,
        ensures
            final(self).wf(),
            final(self).history() == old(self).history().push(record),
            final(self).offset() == old(self).offset() + written,
            final(self).next_id() == if record.spec_id() >= old(self).next_id() {
                (record.spec_id() + 1) as nat
            } else {
                old(self).next_id()
            },
            final(self).is_read_only() == old(self).is_read_only(),
            final(self).tag_state().folded() == old(self).tag_state().folded() + 1,
            final(self).tag_state().stepped(&old(self).tag_state(), record),
    {
        self.handle_record(record);
        let ghost mid = *self;
        self.offset = self.offset + written;
        proof {
            assert(self.history() == mid.history());
            if self.next_id() != 1 {
                let i = choose|i: int|
                    0 <= i < mid.history().len() && #[trigger] mid.history()[i].spec_id() + 1
                        == mid.next_id();
                assert(self.history()[i].spec_id() + 1 == self.next_id());
            }
        }
    }

    /// The payload that the resolver of `upsert` is given.
    pub open spec fn live_payload(cur: Option<RecordData<Document>>) -> Option<&'static Document> {
        match cur {
            Some(d) => Some(&d.data),
            None => None,
        }
    }

    /// What `upsert` appends, given the live entry and the resolver's result.
    pub open spec fn resolution(
        cur: Option<RecordData<Document>>,
        id: RecordId,
        out: Option<Document>,
    ) -> Option<Record<Document>> {
        match out {
            Some(data) => Some(Record::upsert_spec(id, data)),
            None => if cur is Some {
                Some(Record::delete_spec(id))
            } else {
                None
            },
        }
    }
}

} // verus!
