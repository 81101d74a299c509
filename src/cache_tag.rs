//! Change fingerprints: a strategy that folds in every record seen and reads
//! back an opaque 64-bit tag.
use vstd::prelude::*;
use vstd::std_specs::hash::DefaultHasherAdditionalSpecFns;

use std::collections::hash_map::DefaultHasher;
use std::hash::Hasher;

use crate::codec::{encode_record, line_of};
use crate::record::{Document, Record};

verus! {

/// A change-fingerprint accumulator over values of type `T`.
pub trait CacheTag<T> {
    /// How many values have been folded in.
    spec fn folded(&self) -> nat;

    /// The tag that `tag` reads.
    spec fn fingerprint(&self) -> u64;

    /// The accumulator's own consistency condition.
    spec fn inv(&self) -> bool;

    /// `self` is `before` with `value` folded in.
    spec fn stepped(&self, before: &Self, value: T) -> bool;

    fn process_value(&mut self, value: &T)
        requires
            old(self).inv(),
        ensures
            final(self).inv(),
            final(self).folded() == old(self).folded() + 1,
            final(self).stepped(old(self), *value),
    ;

    fn tag(&self) -> (r: u64)
        ensures
            r == self.fingerprint(),
    ;
}

/// `states` runs from one accumulator to another, each state being the
/// one before it with the next value of `vs` folded in.
pub open spec fn fold_chain<T, C: CacheTag<T>>(states: Seq<C>, vs: Seq<T>) -> bool {
    &&& states.len() == vs.len() + 1
    &&& forall|i: int| 0 <= i < vs.len() ==> #[trigger] states[i + 1].stepped(&states[i], vs[i])
}

/// `after` is `before` with the values `vs` folded in, one by one, in order.
pub open spec fn folded_seq<T, C: CacheTag<T>>(before: C, after: C, vs: Seq<T>) -> bool {
    exists|states: Seq<C>|
        #[trigger] fold_chain(states, vs) && states[0] == before && states.last() == after
}

/// Nothing folded in leaves the accumulator as it was.
pub proof fn lemma_folded_seq_empty<T, C: CacheTag<T>>(c: C)
    ensures
        folded_seq(c, c, Seq::<T>::empty()),
{
    let states = seq![c];
    assert(fold_chain(states, Seq::<T>::empty()));
}

/// Folding one more value extends a chain of folds.
pub proof fn lemma_folded_seq_push<T, C: CacheTag<T>>(before: C, mid: C, after: C, vs: Seq<T>, v: T)
    requires
        folded_seq(before, mid, vs),
        after.stepped(&mid, v),
    ensures
        folded_seq(before, after, vs.push(v)),
{
    let states = choose|states: Seq<C>|
        #[trigger] fold_chain(states, vs) && states[0] == before && states.last() == mid;
    let next = states.push(after);
    let ws = vs.push(v);
    assert forall|i: int| 0 <= i < ws.len() implies #[trigger] next[i + 1].stepped(&next[i], ws[i]) by {
        if i < vs.len() {
            assert(next[i + 1] == states[i + 1]);
            assert(next[i] == states[i]);
            assert(ws[i] == vs[i]);
        }
    }
    assert(fold_chain(next, ws));
}

/// The constant that the counting tag's counter is mixed with.
pub const COUNTER_MASK: u64 = 0x6e2797fa0b96b68f;

/// Counts the values folded in; the tag is the count, modulo 2^64, mixed
/// with a constant.
pub struct DefaultCacheTag {
    /// The count modulo 2^64.
    pub counter: u64,
    /// The count.
    pub seen: Ghost<nat>,
}

impl DefaultCacheTag {
    pub open spec fn count(&self) -> nat {
        self.seen@
    }

    pub open spec fn wf(&self) -> bool {
        self.counter as nat == self.seen@ % 0x1_0000_0000_0000_0000
    }

    pub open spec fn spec_tag(&self) -> u64 {
        self.counter ^ COUNTER_MASK
    }

    pub fn new() -> (r: DefaultCacheTag)
        ensures
            r.wf(),
            r.count() == 0,
            r.counter == 0,
    {
        DefaultCacheTag { counter: 0, seen: Ghost(0) }
    }
}

impl Default for DefaultCacheTag {
    fn default() -> (r: DefaultCacheTag)
        ensures
            r.wf(),
            r.count() == 0,
            r.counter == 0,
    {
        DefaultCacheTag::new()
    }
}

impl<T> CacheTag<T> for DefaultCacheTag {
    open spec fn folded(&self) -> nat {
        self.count()
    }

    open spec fn fingerprint(&self) -> u64 {
        self.spec_tag()
    }

    open spec fn inv(&self) -> bool {
        self.wf()
    }

    open spec fn stepped(&self, before: &Self, value: T) -> bool {
        self.counter as nat == (before.counter as nat + 1) % 0x1_0000_0000_0000_0000
            && self.count() == before.count() + 1
    }

    fn process_value(&mut self, _value: &T) {
        self.counter = self.counter.wrapping_add(1);
        self.seen = Ghost(self.seen@ + 1);
        proof {
            let c = old(self).seen@;
            assert((c + 1) % 0x1_0000_0000_0000_0000 == if c % 0x1_0000_0000_0000_0000 + 1
                == 0x1_0000_0000_0000_0000 {
                0
            } else {
                c % 0x1_0000_0000_0000_0000 + 1
            }) by (nonlinear_arith);
        }
    }

    fn tag(&self) -> (r: u64) {
        self.counter ^ COUNTER_MASK
    }
}

/// Folding between one and 2^64 - 1 more values into a counting tag
/// changes its tag.
pub proof fn lemma_counting_tag_changes(before: DefaultCacheTag, after: DefaultCacheTag)
    requires
        before.wf(),
        after.wf(),
        before.count() < after.count() < before.count() + 0x1_0000_0000_0000_0000,
    ensures
        after.spec_tag() != before.spec_tag(),
{
    let x = before.seen@ as int;
    let y = after.seen@ as int;
    let m = 0x1_0000_0000_0000_0000int;
    vstd::arithmetic::div_mod::lemma_fundamental_div_mod(x, m);
    vstd::arithmetic::div_mod::lemma_fundamental_div_mod(y, m);
    if x % m == y % m {
        assert(y - x == (y / m - x / m) * m) by (nonlinear_arith)
            requires
                x == m * (x / m) + x % m,
                y == m * (y / m) + y % m,
                x % m == y % m,
        ;
        assert(false) by (nonlinear_arith)
            requires
                y - x == (y / m - x / m) * m,
                0 < y - x < m,
                m > 0,
        ;
    }
    let a = after.counter;
    let b = before.counter;
    assert(a ^ 0x6e2797fa0b96b68f != b ^ 0x6e2797fa0b96b68f) by (bit_vector)
        requires
            a != b,
    ;
}

/// Hashes the log line of every record folded in; the tag is the hasher's
/// digest of everything written so far.
#[derive(Debug, Default)]
pub struct HashCacheTag<H> {
    pub hasher: H,
}

impl<H> HashCacheTag<H> {
    pub open spec fn spec_hasher(&self) -> H {
        self.hasher
    }

    pub fn new(hasher: H) -> (r: HashCacheTag<H>)
        ensures
            r.spec_hasher() == hasher,
    {
        Self { hasher }
    }
}

impl CacheTag<Record<Document>> for HashCacheTag<DefaultHasher> {
    open spec fn folded(&self) -> nat {
        self.hasher@.len()
    }

    open spec fn fingerprint(&self) -> u64 {
        DefaultHasher::spec_finish(self.hasher@)
    }

    open spec fn inv(&self) -> bool {
        true
    }

    open spec fn stepped(&self, before: &Self, value: Record<Document>) -> bool {
        self.hasher@ == before.hasher@.push(line_of(value))
    }

    /// Writes the record's log line into the hasher.
    fn process_value(&mut self, value: &Record<Document>) {
        let line = encode_record(value);
        self.hasher.write(line.as_slice());
    }

    fn tag(&self) -> (r: u64) {
        self.hasher.finish()
    }
}

} // verus!
