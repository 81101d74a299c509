//! Properties that relate several operations of the store.
use vstd::prelude::*;

use crate::cache_tag::{lemma_counting_tag_changes, CacheTag, DefaultCacheTag};
use crate::database::{lemma_replay_len, Database, DbError};
use crate::record::{Document, Record};

verus! {

/// Replaying again over the same bytes after a successful replay succeeds
/// and changes nothing: not the history, not the position, not the views.
pub proof fn lemma_reload_idempotent<C: CacheTag<Record<Document>>>(
    first: Database<C>,
    second: Database<C>,
    third: Database<C>,
    stream: Seq<u8>,
    r: Result<(), DbError>,
)
    requires
        first.replayed(&second, stream, Ok(())),
        second.replayed(&third, stream, r),
    ensures
        r is Ok,
        third == second,
{
}

/// Every append changes the counting fingerprint, whatever other writers
/// appended before it.
pub proof fn lemma_append_changes_counting_tag(
    before: Database<DefaultCacheTag>,
    after: Database<DefaultCacheTag>,
    log_before: Seq<u8>,
    log_after: Seq<u8>,
    record: Record<Document>,
)
    requires
        before.wf(),
        before.offset() <= log_before.len() <= isize::MAX,
        before.appended(&after, log_before, log_after, record),
    ensures
        after.tag_state().spec_tag() != before.tag_state().spec_tag(),
{
    lemma_replay_len(log_before.subrange(before.offset() as int, log_before.len() as int));
    let p = before.pending(log_before);
    assert(after.tag_state().count() == before.tag_state().count() + p.0.len() + 1);
    lemma_counting_tag_changes(before.tag_state(), after.tag_state());
}

} // verus!
