//! The two projections of a history: the live view and the historical view.
use vstd::prelude::*;

use crate::record::{Record, RecordData, RecordId};

verus! {

/// The most recent record of `h` that bears identifier `id`.
pub open spec fn last_of<T>(h: Seq<Record<T>>, id: RecordId) -> Option<Record<T>>
    decreases h.len(),
{
    if h.len() == 0 {
        None
    } else if h.last().spec_id() == id {
        Some(h.last())
    } else {
        last_of(h.drop_last(), id)
    }
}

/// The payload of the most recent upsert of `id` in `h`, tombstones ignored.
pub open spec fn last_upsert<T>(h: Seq<Record<T>>, id: RecordId) -> Option<RecordData<T>>
    decreases h.len(),
{
    if h.len() == 0 {
        None
    } else {
        match h.last() {
            Record::Upsert(u) if u.data.id == id => Some(u.data),
            _ => last_upsert(h.drop_last(), id),
        }
    }
}

/// The current payload of `id`: present only when its latest record is an upsert.
pub open spec fn live_entry<T>(h: Seq<Record<T>>, id: RecordId) -> Option<RecordData<T>> {
    match last_of(h, id) {
        Some(r) => r.spec_data(),
        None => None,
    }
}

/// What a view shows for `id`: the live entry, or the last upsert when
/// deleted identifiers are included.
pub open spec fn entry_of<T>(h: Seq<Record<T>>, id: RecordId, include_deleted: bool) -> Option<
    RecordData<T>,
> {
    if include_deleted {
        last_upsert(h, id)
    } else {
        live_entry(h, id)
    }
}

pub open spec fn ids_ascending<T>(v: Seq<&RecordData<T>>) -> bool {
    forall|i: int, j: int| 0 <= i < j < v.len() ==> #[trigger] v[i].id < #[trigger] v[j].id
}

/// `v` lists, in ascending identifier order, exactly the entries that
/// `entry_of(h, _, include_deleted)` yields.
pub open spec fn is_view<T>(v: Seq<&RecordData<T>>, h: Seq<Record<T>>, include_deleted: bool) -> bool {
    &&& ids_ascending(v)
    &&& forall|i: int|
        0 <= i < v.len() ==> entry_of(h, #[trigger] v[i].id, include_deleted) == Some(*v[i])
    &&& forall|id: RecordId| #[trigger]
        entry_of(h, id, include_deleted).is_some() ==> exists|i: int|
            0 <= i < v.len() && #[trigger] v[i].id == id
}

/// Appending one record changes what a view shows for that record's identifier only.
proof fn lemma_entry_step<T>(h: Seq<Record<T>>, n: int, id: RecordId, include_deleted: bool)
    requires
        0 <= n < h.len(),
    ensures
        entry_of(h.take(n + 1), id, include_deleted) == if h[n].spec_id() == id {
            if include_deleted {
                match h[n] {
                    Record::Upsert(u) => Some(u.data),
                    Record::Delete(_) => last_upsert(h.take(n), id),
                }
            } else {
                h[n].spec_data()
            }
        } else {
            entry_of(h.take(n), id, include_deleted)
        },
{
    let s = h.take(n + 1);
    assert(s.drop_last() =~= h.take(n));
    assert(s.last() == h[n]);
}

/// First position of `v` whose identifier is not below `id`.
pub(crate) fn find_slot<T>(v: &Vec<&RecordData<T>>, id: RecordId) -> (p: usize)
    requires
        ids_ascending(v@),
    ensures
        p <= v.len(),
        forall|k: int| 0 <= k < p ==> #[trigger] v@[k].id < id,
        forall|k: int| p <= k < v.len() ==> #[trigger] v@[k].id >= id,
{
    let mut p: usize = 0;
    while p < v.len() && v[p].id < id
        invariant
            p <= v.len(),
            ids_ascending(v@),
            forall|k: int| 0 <= k < p ==> #[trigger] v@[k].id < id,
        decreases v.len() - p,
    {
        p = p + 1;
    }
    p
}

/// Builds a view of history `h` by folding its records in order.
pub fn materialize<'a, T>(h: &'a Vec<Record<T>>, include_deleted: bool) -> (out: Vec<
    &'a RecordData<T>,
>)
    ensures
        is_view(out@, h@, include_deleted),
{
    let mut out: Vec<&'a RecordData<T>> = Vec::new();
    let mut n: usize = 0;
    assert(h@.take(0) =~= Seq::<Record<T>>::empty());
    while n < h.len()
        invariant
            n <= h.len(),
            is_view(out@, h@.take(n as int), include_deleted),
        decreases h.len() - n,
    {
        let rec = &h[n];
        let id = rec.id();
        let p = find_slot(&out, id);
        let present = p < out.len() && out[p].id == id;
        let ghost prev = out@;
        proof {
            assert forall|k: RecordId| k != id implies entry_of(h@.take(n + 1), k, include_deleted)
                == entry_of(h@.take(n as int), k, include_deleted) by {
                lemma_entry_step(h@, n as int, k, include_deleted);
            }
            lemma_entry_step(h@, n as int, id, include_deleted);
        }
        match rec {
            Record::Upsert(u) => {
                if present {
                    out.set(p, &u.data);
                } else {
                    out.insert(p, &u.data);
                }
                proof {
                    let hn = h@.take(n + 1);
                    assert(ids_ascending(out@));
                    assert forall|i: int| 0 <= i < out@.len() implies entry_of(
                        hn,
                        #[trigger] out@[i].id,
                        include_deleted,
                    ) == Some(*out@[i]) by {
                        if out@[i].id != id {
                            if present || i < p {
                                assert(out@[i] == prev[i]);
                            } else {
                                assert(out@[i] == prev[i - 1]);
                            }
                        }
                    }
                    assert forall|k: RecordId| #[trigger]
                        entry_of(hn, k, include_deleted).is_some() implies exists|i: int|
                        0 <= i < out@.len() && #[trigger] out@[i].id == k by {
                        if k == id {
                            assert(out@[p as int].id == k);
                        } else {
                            assert(entry_of(h@.take(n as int), k, include_deleted).is_some());
                        let j = choose|j: int| 0 <= j < prev.len() && #[trigger] prev[j].id == k;
                            if present || j < p {
                                assert(out@[j].id == k);
                            } else {
                                assert(out@[j + 1].id == k);
                            }
                        }
                    }
                }
            },
            Record::Delete(_) => {
                if present && !include_deleted {
                    out.remove(p);
                }
                proof {
                    let hn = h@.take(n + 1);
                    assert(ids_ascending(out@));
                    assert forall|i: int| 0 <= i < out@.len() implies entry_of(
                        hn,
                        #[trigger] out@[i].id,
                        include_deleted,
                    ) == Some(*out@[i]) by {
                        if present && !include_deleted {
                            if i < p {
                                assert(out@[i] == prev[i]);
                            } else {
                                assert(out@[i] == prev[i + 1]);
                            }
                        } else {
                            assert(out@[i] == prev[i]);
                        }
                    }
                    assert forall|k: RecordId| #[trigger]
                        entry_of(hn, k, include_deleted).is_some() implies exists|i: int|
                        0 <= i < out@.len() && #[trigger] out@[i].id == k by {
                        assert(entry_of(h@.take(n as int), k, include_deleted).is_some());
                        let j = choose|j: int| 0 <= j < prev.len() && #[trigger] prev[j].id == k;
                        if present && !include_deleted {
                            if j < p {
                                assert(out@[j].id == k);
                            } else {
                                assert(out@[j - 1].id == k);
                            }
                        } else {
                            assert(out@[j].id == k);
                        }
                    }
                }
            },
        }
        n = n + 1;
    }
    assert(h@.take(h.len() as int) =~= h@);
    out
}

/// Whether a listing restricted to `ids` shows `d`: every entry when `ids`
/// is empty, else the entries whose identifier is listed.
pub open spec fn selected<T>(ids: Seq<RecordId>, d: &RecordData<T>) -> bool {
    ids.len() == 0 || ids.contains(d.id)
}

fn contains_id(ids: &[RecordId], id: RecordId) -> (r: bool)
    ensures
        r == ids@.contains(id),
{
    let mut i: usize = 0;
    while i < ids.len()
        invariant
            i <= ids@.len(),
            forall|k: int| 0 <= k < i ==> ids@[k] != id,
        decreases ids.len() - i,
    {
        if ids[i] == id {
            assert(ids@[i as int] == id);
            return true;
        }
        i = i + 1;
    }
    false
}

/// The entries of `records` that a listing restricted to `ids` shows, in
/// their order.
pub fn list_records<'a, T>(records: Vec<&'a RecordData<T>>, ids: &[RecordId]) -> (r: Vec<
    &'a RecordData<T>,
>)
    ensures
        r@ == records@.filter(|d: &'a RecordData<T>| selected(ids@, d)),
{
    let mut out: Vec<&'a RecordData<T>> = Vec::new();
    let mut i: usize = 0;
    while i < records.len()
        invariant
            i <= records@.len(),
            out@ == records@.take(i as int).filter(|d: &'a RecordData<T>| selected(ids@, d)),
        decreases records.len() - i,
    {
        let d = records[i];
        if ids.len() == 0 || contains_id(ids, d.id) {
            out.push(d);
        }
        proof {
            assert(records@.take(i + 1).drop_last() =~= records@.take(i as int));
            reveal(Seq::filter);
        }
        i = i + 1;
    }
    assert(records@.take(records@.len() as int) =~= records@);
    out
}

/// The identifiers that a view of `h` shows.
pub open spec fn shown_ids<T>(h: Seq<Record<T>>, include_deleted: bool) -> Set<RecordId> {
    Set::new(|id: RecordId| entry_of(h, id, include_deleted).is_some())
}

/// A view has one entry per identifier that it shows.
pub proof fn lemma_view_len<T>(v: Seq<&RecordData<T>>, h: Seq<Record<T>>, include_deleted: bool)
    requires
        is_view(v, h, include_deleted),
    ensures
        shown_ids(h, include_deleted).finite(),
        shown_ids(h, include_deleted).len() == v.len(),
{
    let ids = v.map_values(|d: &RecordData<T>| d.id);
    assert forall|i: int, j: int| 0 <= i < ids.len() && 0 <= j < ids.len() && i != j implies ids[i]
        != ids[j] by {
        if i < j {
            assert(v[i].id < v[j].id);
        } else {
            assert(v[j].id < v[i].id);
        }
    }
    assert(ids.no_duplicates());
    ids.unique_seq_to_set();
    assert forall|id: RecordId| #[trigger] ids.to_set().contains(id) <==> shown_ids(
        h,
        include_deleted,
    ).contains(id) by {
        if ids.to_set().contains(id) {
            let i = choose|i: int| 0 <= i < ids.len() && ids[i] == id;
            assert(entry_of(h, v[i].id, include_deleted) == Some(*v[i]));
        }
        if shown_ids(h, include_deleted).contains(id) {
            assert(entry_of(h, id, include_deleted).is_some());
            let i = choose|i: int| 0 <= i < v.len() && #[trigger] v[i].id == id;
            assert(ids[i] == id);
        }
    }
    assert(ids.to_set() =~= shown_ids(h, include_deleted));
    vstd::seq_lib::seq_to_set_is_finite(ids);
}

} // verus!
