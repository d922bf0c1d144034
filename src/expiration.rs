use vstd::prelude::*;

use std::collections::HashMap;

use crate::types::{KeyId, MILLIS_PER_SECOND, Millis, second_of};

verus! {

broadcast use vstd::std_specs::hash::group_hash_axioms;

/// Largest number of ticker shards.
pub const MAX_TTL_SHARDS: usize = 0x1_0000;

/// A key id registered to expire at an instant.
#[derive(PartialEq, Eq, Structural, Debug, Clone, Copy)]
pub struct TtlEntry {
    pub key_id: KeyId,
    pub expire_after: Millis,
}

/// One shard of the ticker: expiring key ids, grouped in buckets by the
/// whole second of their expiry. A scan drains the buckets from the last
/// second scanned up to now.
pub struct TtlShard {
    buckets: HashMap<u64, Vec<TtlEntry>>,
    last_scanned: u64,
}

impl TtlShard {
    pub closed spec fn buckets(&self) -> Map<u64, Vec<TtlEntry>> {
        self.buckets@
    }

    pub closed spec fn spec_last_scanned(&self) -> u64 {
        self.last_scanned
    }

    /// Whether `key_id` is registered to expire at `expire_after`, under the
    /// bucket of that instant's second.
    pub open spec fn has(&self, key_id: KeyId, expire_after: Millis) -> bool {
        let s = second_of(expire_after);
        &&& self.buckets().contains_key(s)
        &&& self.buckets()[s]@.contains(TtlEntry { key_id, expire_after })
    }

    /// Every entry sits in the bucket of its own second.
    pub open spec fn wf(&self) -> bool {
        forall|s: u64, i: int|
            #[trigger] self.buckets().contains_key(s) && 0 <= i < self.buckets()[s]@.len() ==> second_of(
                #[trigger] self.buckets()[s]@[i].expire_after,
            ) == s
    }

    /// A shard whose first scan starts at the second of `now`.
    pub fn new(now: Millis) -> (r: Self)
        ensures
            r.wf(),
            r.spec_last_scanned() == second_of(now),
            forall|id: KeyId, e: Millis| !r.has(id, e),
    {
        TtlShard { buckets: HashMap::new(), last_scanned: now / MILLIS_PER_SECOND }
    }

    fn take_bucket(&mut self, second: u64) -> (r: Vec<TtlEntry>)
        ensures
            final(self).buckets() == old(self).buckets().remove(second),
            final(self).spec_last_scanned() == old(self).spec_last_scanned(),
            r@ == if old(self).buckets().contains_key(second) {
                old(self).buckets()[second]@
            } else {
                Seq::<TtlEntry>::empty()
            },
    {
        match self.buckets.remove(&second) {
            Some(b) => b,
            None => Vec::new(),
        }
    }

    /// Registers `key_id` to expire at `expire_after`.
    pub fn put(&mut self, key_id: KeyId, expire_after: Millis)
        requires
            old(self).wf(),
        ensures
            final(self).wf(),
            final(self).spec_last_scanned() == old(self).spec_last_scanned(),
            forall|id: KeyId, e: Millis| #[trigger] final(self).has(id, e) <==> old(self).has(id, e) || (id == key_id && e
                == expire_after),
    {
        let second = expire_after / MILLIS_PER_SECOND;
        let ghost before = *self;
        let mut bucket = self.take_bucket(second);
        let ghost taken = bucket@;
        let entry = TtlEntry { key_id, expire_after };
        bucket.push(entry);
        self.buckets.insert(second, bucket);
        proof {
            assert forall|id: KeyId, e: Millis| #[trigger] self.has(id, e) <==> before.has(id, e) || (id == key_id && e
                == expire_after) by {
                let t = TtlEntry { key_id: id, expire_after: e };
                if second_of(e) == second {
                    assert(self.buckets()[second]@ == taken.push(entry));
                    if taken.contains(t) {
                        let i = choose|i: int| 0 <= i < taken.len() && taken[i] == t;
                        assert(taken.push(entry)[i] == t);
                    }
                    if taken.push(entry).contains(t) && t != entry {
                        let i = choose|i: int| 0 <= i < taken.len() + 1 && taken.push(entry)[i] == t;
                        assert(taken[i] == t);
                    }
                    assert(taken.push(entry)[taken.len() as int] == entry);
                }
            }
            assert forall|s: u64, i: int|
                #[trigger] self.buckets().contains_key(s) && 0 <= i < self.buckets()[s]@.len() implies second_of(
                    #[trigger] self.buckets()[s]@[i].expire_after,
                ) == s by {
                if s == second && i < taken.len() {
                    assert(self.buckets()[s]@[i] == taken[i]);
                }
            }
        }
    }

    /// Whether `key_id` is registered to expire at `expire_after`; gives the
    /// instant back when it is.
    pub fn get(&self, key_id: KeyId, expire_after: Millis) -> (r: Option<Millis>)
        ensures
            r == if self.has(key_id, expire_after) {
                Some(expire_after)
            } else {
                None::<Millis>
            },
    {
        let second = expire_after / MILLIS_PER_SECOND;
        let entry = TtlEntry { key_id, expire_after };
        match self.buckets.get(&second) {
            None => None,
            Some(bucket) => {
                let mut i: usize = 0;
                while i < bucket.len()
                    invariant
                        i <= bucket@.len(),
                        self.buckets().contains_key(second),
                        self.buckets()[second]@ == bucket@,
                        second == second_of(expire_after),
                        entry == (TtlEntry { key_id, expire_after }),
                        forall|j: int| 0 <= j < i ==> bucket@[j] != entry,
                    decreases bucket@.len() - i,
                {
                    if bucket[i] == entry {
                        assert(self.buckets()[second]@[i as int] == entry);
                        return Some(expire_after);
                    }
                    i = i + 1;
                }
                None
            },
        }
    }

    /// Unregisters `key_id` from expiring at `expire_after`; nothing happens
    /// when it is not registered.
    pub fn delete(&mut self, key_id: KeyId, expire_after: Millis)
        requires
            old(self).wf(),
        ensures
            final(self).wf(),
            final(self).spec_last_scanned() == old(self).spec_last_scanned(),
            forall|id: KeyId, e: Millis| #[trigger] final(self).has(id, e) <==> old(self).has(id, e) && !(id == key_id && e
                == expire_after),
    {
        let second = expire_after / MILLIS_PER_SECOND;
        let ghost before = *self;
        let bucket = self.take_bucket(second);
        let entry = TtlEntry { key_id, expire_after };
        let mut kept: Vec<TtlEntry> = Vec::new();
        let mut i: usize = 0;
        while i < bucket.len()
            invariant
                i <= bucket@.len(),
                forall|t: TtlEntry| #[trigger] kept@.contains(t) <==> t != entry && exists|j: int| 0 <= j < i && bucket@[j] == t,
                forall|j: int| 0 <= j < kept@.len() ==> exists|m: int| 0 <= m < i && bucket@[m] == #[trigger] kept@[j],
            decreases bucket@.len() - i,
        {
            let t = bucket[i];
            if t != entry {
                let ghost k0 = kept@;
                kept.push(t);
                proof {
                    assert forall|u: TtlEntry| #[trigger] kept@.contains(u) <==> u != entry && exists|j: int| 0 <= j < i + 1 && bucket@[j] == u by {
                        if u == t {
                            assert(kept@[k0.len() as int] == t);
                        } else if k0.contains(u) {
                            let m = choose|m: int| 0 <= m < k0.len() && k0[m] == u;
                            assert(kept@[m] == u);
                        } else if kept@.contains(u) {
                            let m = choose|m: int| 0 <= m < kept@.len() && kept@[m] == u;
                            assert(m < k0.len());
                            assert(k0[m] == u);
                        }
                    }
                    assert forall|j: int| 0 <= j < kept@.len() implies exists|m: int| 0 <= m < i + 1 && bucket@[m] == #[trigger] kept@[j] by {
                        if j < k0.len() {
                            assert(kept@[j] == k0[j]);
                        } else {
                            assert(bucket@[i as int] == kept@[j]);
                        }
                    }
                }
            } else {
                proof {
                    assert forall|u: TtlEntry| #[trigger] kept@.contains(u) <==> u != entry && exists|j: int| 0 <= j < i + 1 && bucket@[j] == u by {
                        if u != entry && exists|j: int| 0 <= j < i + 1 && bucket@[j] == u {
                            let j = choose|j: int| 0 <= j < i + 1 && bucket@[j] == u;
                            assert(j < i);
                        }
                    }
                }
            }
            i = i + 1;
        }
        if kept.len() > 0 {
            self.buckets.insert(second, kept);
        }
        proof {
            assert forall|id: KeyId, e: Millis| #[trigger] self.has(id, e) <==> before.has(id, e) && !(id == key_id && e
                == expire_after) by {
                let t = TtlEntry { key_id: id, expire_after: e };
                if second_of(e) == second {
                    if bucket@.contains(t) {
                        let j = choose|j: int| 0 <= j < bucket@.len() && bucket@[j] == t;
                        assert(exists|j: int| 0 <= j < i && bucket@[j] == t);
                    }
                    if kept@.contains(t) {
                        let j = choose|j: int| 0 <= j < i && bucket@[j] == t;
                        assert(bucket@.contains(t));
                    }
                }
            }
            assert forall|s: u64, m: int|
                #[trigger] self.buckets().contains_key(s) && 0 <= m < self.buckets()[s]@.len() implies second_of(
                    #[trigger] self.buckets()[s]@[m].expire_after,
                ) == s by {
                if s == second {
                    let j = choose|j: int| 0 <= j < i && bucket@[j] == kept@[m];
                    assert(before.buckets()[s]@[j] == bucket@[j]);
                }
            }
        }
    }

    /// Moves `key_id` from one expiry to another.
    pub fn update(&mut self, key_id: KeyId, old_expire_after: Millis, new_expire_after: Millis)
        requires
            old(self).wf(),
        ensures
            final(self).wf(),
            final(self).spec_last_scanned() == old(self).spec_last_scanned(),
            forall|id: KeyId, e: Millis| #[trigger] final(self).has(id, e) <==> (old(self).has(id, e) && !(id == key_id && e
                == old_expire_after)) || (id == key_id && e == new_expire_after),
    {
        let ghost before = *self;
        self.delete(key_id, old_expire_after);
        let ghost mid = *self;
        self.put(key_id, new_expire_after);
        assert forall|id: KeyId, e: Millis| #[trigger] self.has(id, e) <==> (before.has(id, e) && !(id == key_id && e
            == old_expire_after)) || (id == key_id && e == new_expire_after) by {
            assert(mid.has(id, e) <==> before.has(id, e) && !(id == key_id && e == old_expire_after));
        }
    }

    /// Splits a bucket into the entries due at `now` and the others.
    fn split_due(bucket: &Vec<TtlEntry>, now: Millis) -> (r: (Vec<TtlEntry>, Vec<TtlEntry>))
        ensures
            forall|t: TtlEntry| #[trigger] r.0@.contains(t) <==> bucket@.contains(t) && t.expire_after <= now,
            forall|t: TtlEntry| #[trigger] r.1@.contains(t) <==> bucket@.contains(t) && t.expire_after > now,
            forall|j: int| 0 <= j < r.1@.len() ==> bucket@.contains(#[trigger] r.1@[j]),
    {
        let mut due: Vec<TtlEntry> = Vec::new();
        let mut kept: Vec<TtlEntry> = Vec::new();
        let mut i: usize = 0;
        while i < bucket.len()
            invariant
                i <= bucket@.len(),
                forall|t: TtlEntry| #[trigger] due@.contains(t) <==> t.expire_after <= now && bucket@.take(i as int).contains(t),
                forall|t: TtlEntry| #[trigger] kept@.contains(t) <==> t.expire_after > now && bucket@.take(i as int).contains(t),
            decreases bucket@.len() - i,
        {
            let t = bucket[i];
            proof {
                assert(bucket@.take(i + 1) =~= bucket@.take(i as int).push(t));
                bucket@.take(i as int).lemma_push_to_set_commute(t);
            }
            let ghost d0 = due@;
            let ghost k0 = kept@;
            if t.expire_after <= now {
                due.push(t);
                proof {
                    d0.lemma_push_to_set_commute(t);
                    assert forall|u: TtlEntry| #[trigger] due@.contains(u) <==> u.expire_after <= now && bucket@.take(i + 1).contains(u) by {
                        assert(due@.to_set().contains(u) == due@.contains(u));
                        assert(d0.to_set().contains(u) == d0.contains(u));
                        assert(bucket@.take(i + 1).to_set().contains(u) == bucket@.take(i + 1).contains(u));
                        assert(bucket@.take(i as int).to_set().contains(u) == bucket@.take(i as int).contains(u));
                    }
                    assert forall|u: TtlEntry| #[trigger] kept@.contains(u) <==> u.expire_after > now && bucket@.take(i + 1).contains(u) by {
                        assert(bucket@.take(i + 1).to_set().contains(u) == bucket@.take(i + 1).contains(u));
                        assert(bucket@.take(i as int).to_set().contains(u) == bucket@.take(i as int).contains(u));
                    }
                }
            } else {
                kept.push(t);
                proof {
                    k0.lemma_push_to_set_commute(t);
                    assert forall|u: TtlEntry| #[trigger] kept@.contains(u) <==> u.expire_after > now && bucket@.take(i + 1).contains(u) by {
                        assert(kept@.to_set().contains(u) == kept@.contains(u));
                        assert(k0.to_set().contains(u) == k0.contains(u));
                        assert(bucket@.take(i + 1).to_set().contains(u) == bucket@.take(i + 1).contains(u));
                        assert(bucket@.take(i as int).to_set().contains(u) == bucket@.take(i as int).contains(u));
                    }
                    assert forall|u: TtlEntry| #[trigger] due@.contains(u) <==> u.expire_after <= now && bucket@.take(i + 1).contains(u) by {
                        assert(bucket@.take(i + 1).to_set().contains(u) == bucket@.take(i + 1).contains(u));
                        assert(bucket@.take(i as int).to_set().contains(u) == bucket@.take(i as int).contains(u));
                    }
                }
            }
            i = i + 1;
        }
        proof {
            assert(bucket@.take(i as int) =~= bucket@);
            assert forall|j: int| 0 <= j < kept@.len() implies bucket@.contains(#[trigger] kept@[j]) by {
                assert(kept@.contains(kept@[j]));
            }
        }
        (due, kept)
    }

    /// Drains every registration due at `now` from the buckets of the seconds
    /// since the last scan up to now's, returning the drained entries.
    pub fn expire(&mut self, now: Millis) -> (r: Vec<TtlEntry>)
        requires
            old(self).wf(),
        ensures
            final(self).wf(),
            ({
                let first = old(self).spec_last_scanned();
                &&& forall|id: KeyId, e: Millis| #[trigger] final(self).has(id, e) <==> old(self).has(id, e) && !(e <= now
                    && first <= second_of(e))
                &&& forall|t: TtlEntry| #[trigger] r@.contains(t) <==> old(self).has(t.key_id, t.expire_after)
                    && t.expire_after <= now && first <= second_of(t.expire_after)
                &&& final(self).spec_last_scanned() == if second_of(now) >= first {
                    second_of(now)
                } else {
                    first
                }
            }),
    {
        let ghost before = *self;
        let last = now / MILLIS_PER_SECOND;
        let first = self.last_scanned;
        let mut drained: Vec<TtlEntry> = Vec::new();
        if last < first {
            proof {
                assert forall|e: Millis| e <= now implies #[trigger] second_of(e) <= second_of(now) by {
                    vstd::arithmetic::div_mod::lemma_div_is_ordered(e as int, now as int, MILLIS_PER_SECOND as int);
                }
            }
            return drained;
        }
        let mut sec = first;
        while sec <= last
            invariant
                self.wf(),
                self.last_scanned == first,
                first == before.spec_last_scanned(),
                last == second_of(now),
                first <= sec <= last + 1,
                last <= u64::MAX / MILLIS_PER_SECOND,
                forall|id: KeyId, e: Millis| #[trigger] self.has(id, e) <==> before.has(id, e) && !(e <= now && first
                    <= second_of(e) < sec),
                forall|t: TtlEntry| #[trigger] drained@.contains(t) <==> before.has(t.key_id, t.expire_after)
                    && t.expire_after <= now && first <= second_of(t.expire_after) < sec,
            decreases last + 1 - sec,
        {
            let ghost mid = *self;
            let bucket = self.take_bucket(sec);
            let (mut due, kept) = Self::split_due(&bucket, now);
            let ghost kept_view = kept@;
            let ghost due_view = due@;
            let ghost d0 = drained@;
            if kept.len() > 0 {
                self.buckets.insert(sec, kept);
            }
            drained.append(&mut due);
            proof {
                assert forall|t: TtlEntry| #[trigger] bucket@.contains(t) <==> mid.has(t.key_id, t.expire_after)
                    && second_of(t.expire_after) == sec by {
                    if bucket@.contains(t) {
                        let j = choose|j: int| 0 <= j < bucket@.len() && bucket@[j] == t;
                        assert(mid.buckets()[sec]@[j] == t);
                    }
                }
                assert forall|id: KeyId, e: Millis| #[trigger] self.has(id, e) <==> before.has(id, e) && !(e <= now && first
                    <= second_of(e) < sec + 1) by {
                    let t = TtlEntry { key_id: id, expire_after: e };
                    if second_of(e) == sec {
                        assert(bucket@.contains(t) <==> mid.has(id, e));
                        assert(kept_view.contains(t) <==> bucket@.contains(t) && e > now);
                        if kept_view.len() > 0 {
                            assert(self.has(id, e) <==> kept_view.contains(t));
                        } else {
                            assert(!kept_view.contains(t));
                        }
                    } else {
                        assert(self.has(id, e) == mid.has(id, e));
                    }
                }
                assert forall|t: TtlEntry| #[trigger] drained@.contains(t) <==> before.has(t.key_id, t.expire_after)
                    && t.expire_after <= now && first <= second_of(t.expire_after) < sec + 1 by {
                    assert(drained@ == d0 + due_view);
                    vstd::seq_lib::lemma_seq_concat_contains_all_elements(d0, due_view, t);
                    assert(due_view.contains(t) <==> bucket@.contains(t) && t.expire_after <= now);
                    assert(bucket@.contains(t) <==> mid.has(t.key_id, t.expire_after) && second_of(t.expire_after) == sec);
                    assert(mid.has(t.key_id, t.expire_after) <==> before.has(t.key_id, t.expire_after) && !(t.expire_after
                        <= now && first <= second_of(t.expire_after) < sec));
                }
                assert forall|s: u64, m: int|
                    #[trigger] self.buckets().contains_key(s) && 0 <= m < self.buckets()[s]@.len() implies second_of(
                        #[trigger] self.buckets()[s]@[m].expire_after,
                    ) == s by {
                    if s == sec {
                        assert(bucket@.contains(kept_view[m]));
                        let j = choose|j: int| 0 <= j < bucket@.len() && bucket@[j] == kept_view[m];
                        assert(mid.buckets()[s]@[j] == bucket@[j]);
                    } else {
                        assert(self.buckets()[s] == mid.buckets()[s]);
                    }
                }
            }
            sec = sec + 1;
        }
        let ghost scanned = *self;
        self.last_scanned = last;
        proof {
            assert forall|e: Millis| e <= now implies #[trigger] second_of(e) <= second_of(now) by {
                vstd::arithmetic::div_mod::lemma_div_is_ordered(e as int, now as int, MILLIS_PER_SECOND as int);
            }
            assert(self.buckets() == scanned.buckets());
            assert forall|id: KeyId, e: Millis| #[trigger] self.has(id, e) <==> before.has(id, e) && !(e <= now && first
                <= second_of(e)) by {
                assert(self.has(id, e) == scanned.has(id, e));
                if e <= now {
                    assert(second_of(e) <= second_of(now));
                }
            }
            assert forall|t: TtlEntry| #[trigger] drained@.contains(t) <==> before.has(t.key_id, t.expire_after)
                && t.expire_after <= now && first <= second_of(t.expire_after) by {
                if t.expire_after <= now {
                    assert(second_of(t.expire_after) <= second_of(now));
                }
            }
        }
        drained
    }

    /// Drops every registration.
    pub fn clear(&mut self)
        ensures
            final(self).wf(),
            final(self).spec_last_scanned() == old(self).spec_last_scanned(),
            forall|id: KeyId, e: Millis| !final(self).has(id, e),
    {
        self.buckets.clear();
    }
}

/// Expiring key ids, sharded by key id; each shard buckets them by the
/// second of their expiry. All shards are scanned together.
pub struct TtlTicker {
    shards: Vec<TtlShard>,
}

impl TtlTicker {
    pub closed spec fn shards(&self) -> Seq<TtlShard> {
        self.shards@
    }

    pub open spec fn shard_count(&self) -> int {
        self.shards().len() as int
    }

    /// The shard a key id belongs to.
    pub open spec fn shard_of(&self, key_id: KeyId) -> int {
        key_id as int % self.shard_count()
    }

    /// The second from which the next scan starts.
    pub open spec fn spec_last_scanned(&self) -> u64 {
        self.shards()[0].spec_last_scanned()
    }

    /// Whether `key_id` is registered to expire at `expire_after`, in its
    /// shard, under the bucket of that instant's second.
    pub open spec fn has(&self, key_id: KeyId, expire_after: Millis) -> bool {
        self.shards()[self.shard_of(key_id)].has(key_id, expire_after)
    }

    /// Whether the bucket of `second` in `key_id`'s shard exists.
    pub open spec fn has_bucket(&self, key_id: KeyId, second: u64) -> bool {
        self.shards()[self.shard_of(key_id)].buckets().contains_key(second)
    }

    pub open spec fn wf(&self) -> bool {
        &&& 0 < self.shard_count() <= MAX_TTL_SHARDS
        &&& forall|i: int| 0 <= i < self.shard_count() ==> #[trigger] self.shards()[i].wf()
        &&& forall|i: int| 0 <= i < self.shard_count() ==> #[trigger] self.shards()[i].spec_last_scanned()
            == self.spec_last_scanned()
        &&& forall|i: int, id: KeyId, e: Millis| 0 <= i < self.shard_count() && #[trigger] self.shards()[i].has(id, e) ==> id
            as int % self.shard_count() == i
    }

    /// A ticker of `shard_count` shards whose first scan starts at the
    /// second of `now`.
    pub fn new(now: Millis, shard_count: usize) -> (r: Self)
        requires
            0 < shard_count <= MAX_TTL_SHARDS,
        ensures
            r.wf(),
            r.shard_count() == shard_count,
            r.spec_last_scanned() == second_of(now),
            forall|id: KeyId, e: Millis| !r.has(id, e),
    {
        let mut shards: Vec<TtlShard> = Vec::new();
        while shards.len() < shard_count
            invariant
                shards@.len() <= shard_count,
                forall|i: int| 0 <= i < shards@.len() ==> (#[trigger] shards@[i]).wf() && shards@[i].spec_last_scanned() == second_of(now)
                    && forall|id: KeyId, e: Millis| !shards@[i].has(id, e),
            decreases shard_count - shards@.len(),
        {
            shards.push(TtlShard::new(now));
        }
        let r = TtlTicker { shards };
        proof {
            assert(r.shards()[0].spec_last_scanned() == second_of(now));
            assert forall|i: int, id: KeyId, e: Millis| 0 <= i < r.shard_count() && #[trigger] r.shards()[i].has(id, e) implies id
                as int % r.shard_count() == i by {
                assert(!r.shards()[i].has(id, e));
            }
            assert forall|id: KeyId, e: Millis| !r.has(id, e) by {
                assert(0 <= id as int % r.shard_count() < r.shard_count());
            }
        }
        r
    }

    fn shard_index(&self, key_id: KeyId) -> (r: usize)
        requires
            self.wf(),
        ensures
            r as int == self.shard_of(key_id),
            r < self.shard_count(),
    {
        (key_id % (self.shards.len() as u64)) as usize
    }

    /// Registers `key_id` to expire at `expire_after`.
    pub fn put(&mut self, key_id: KeyId, expire_after: Millis)
        requires
            old(self).wf(),
        ensures
            final(self).wf(),
            final(self).shard_count() == old(self).shard_count(),
            final(self).spec_last_scanned() == old(self).spec_last_scanned(),
            forall|id: KeyId, e: Millis| #[trigger] final(self).has(id, e) <==> old(self).has(id, e) || (id == key_id && e
                == expire_after),
    {
        let i = self.shard_index(key_id);
        let ghost before = *self;
        let mut shard = self.shards.remove(i);
        shard.put(key_id, expire_after);
        self.shards.insert(i, shard);
        proof {
            assert(self.shards() =~= before.shards().update(i as int, shard));
            Self::lemma_replaced(before, *self, i as int);
            assert forall|id: KeyId, e: Millis| #[trigger] self.has(id, e) <==> before.has(id, e) || (id == key_id && e
                == expire_after) by {
                if self.shard_of(id) != i {
                    assert(self.shards()[self.shard_of(id)] == before.shards()[self.shard_of(id)]);
                }
            }
            assert forall|j: int, id: KeyId, e: Millis| 0 <= j < self.shard_count() && #[trigger] self.shards()[j].has(id, e)
                implies id as int % self.shard_count() == j by {
                if j != i {
                    assert(before.shards()[j].has(id, e));
                } else if !(id == key_id && e == expire_after) {
                    assert(before.shards()[j].has(id, e));
                }
            }
        }
    }

    proof fn lemma_replaced(before: Self, after: Self, i: int)
        requires
            before.wf(),
            0 <= i < before.shard_count(),
            after.shards() == before.shards().update(i, after.shards()[i]),
            after.shards()[i].wf(),
            after.shards()[i].spec_last_scanned() == before.shards()[i].spec_last_scanned(),
        ensures
            after.shard_count() == before.shard_count(),
            after.spec_last_scanned() == before.spec_last_scanned(),
            forall|j: int| 0 <= j < after.shard_count() ==> #[trigger] after.shards()[j].wf(),
            forall|j: int| 0 <= j < after.shard_count() ==> #[trigger] after.shards()[j].spec_last_scanned()
                == after.spec_last_scanned(),
    {
        assert(before.shards()[0].spec_last_scanned() == before.spec_last_scanned());
        assert forall|j: int| 0 <= j < after.shard_count() implies #[trigger] after.shards()[j].spec_last_scanned()
            == after.spec_last_scanned() by {
            assert(before.shards()[j].spec_last_scanned() == before.spec_last_scanned());
        }
    }

    /// Whether `key_id` is registered to expire at `expire_after`; gives the
    /// instant back when it is.
    pub fn get(&self, key_id: KeyId, expire_after: Millis) -> (r: Option<Millis>)
        requires
            self.wf(),
        ensures
            r == if self.has(key_id, expire_after) {
                Some(expire_after)
            } else {
                None::<Millis>
            },
    {
        let i = self.shard_index(key_id);
        self.shards[i].get(key_id, expire_after)
    }

    /// Unregisters `key_id` from expiring at `expire_after`; nothing happens
    /// when it is not registered.
    pub fn delete(&mut self, key_id: KeyId, expire_after: Millis)
        requires
            old(self).wf(),
        ensures
            final(self).wf(),
            final(self).shard_count() == old(self).shard_count(),
            final(self).spec_last_scanned() == old(self).spec_last_scanned(),
            forall|id: KeyId, e: Millis| #[trigger] final(self).has(id, e) <==> old(self).has(id, e) && !(id == key_id && e
                == expire_after),
    {
        let i = self.shard_index(key_id);
        let ghost before = *self;
        let mut shard = self.shards.remove(i);
        shard.delete(key_id, expire_after);
        self.shards.insert(i, shard);
        proof {
            assert(self.shards() =~= before.shards().update(i as int, shard));
            Self::lemma_replaced(before, *self, i as int);
            assert forall|id: KeyId, e: Millis| #[trigger] self.has(id, e) <==> before.has(id, e) && !(id == key_id && e
                == expire_after) by {
                if self.shard_of(id) != i {
                    assert(self.shards()[self.shard_of(id)] == before.shards()[self.shard_of(id)]);
                }
            }
            assert forall|j: int, id: KeyId, e: Millis| 0 <= j < self.shard_count() && #[trigger] self.shards()[j].has(id, e)
                implies id as int % self.shard_count() == j by {
                assert(before.shards()[j].has(id, e));
            }
        }
    }

    /// Moves `key_id` from one expiry to another.
    pub fn update(&mut self, key_id: KeyId, old_expire_after: Millis, new_expire_after: Millis)
        requires
            old(self).wf(),
        ensures
            final(self).wf(),
            final(self).shard_count() == old(self).shard_count(),
            final(self).spec_last_scanned() == old(self).spec_last_scanned(),
            forall|id: KeyId, e: Millis| #[trigger] final(self).has(id, e) <==> (old(self).has(id, e) && !(id == key_id && e
                == old_expire_after)) || (id == key_id && e == new_expire_after),
    {
        let ghost before = *self;
        self.delete(key_id, old_expire_after);
        let ghost mid = *self;
        self.put(key_id, new_expire_after);
        assert forall|id: KeyId, e: Millis| #[trigger] self.has(id, e) <==> (before.has(id, e) && !(id == key_id && e
            == old_expire_after)) || (id == key_id && e == new_expire_after) by {
            assert(mid.has(id, e) <==> before.has(id, e) && !(id == key_id && e == old_expire_after));
        }
    }

    /// Drains every registration due at `now`, in every shard, from the
    /// buckets of the seconds since the last scan up to now's, returning the
    /// drained entries.
    pub fn expire(&mut self, now: Millis) -> (r: Vec<TtlEntry>)
        requires
            old(self).wf(),
        ensures
            final(self).wf(),
            final(self).shard_count() == old(self).shard_count(),
            ({
                let first = old(self).spec_last_scanned();
                &&& forall|id: KeyId, e: Millis| #[trigger] final(self).has(id, e) <==> old(self).has(id, e) && !(e <= now
                    && first <= second_of(e))
                &&& forall|t: TtlEntry| #[trigger] r@.contains(t) <==> old(self).has(t.key_id, t.expire_after)
                    && t.expire_after <= now && first <= second_of(t.expire_after)
                &&& final(self).spec_last_scanned() == if second_of(now) >= first {
                    second_of(now)
                } else {
                    first
                }
            }),
    {
        let ghost before = *self;
        let ghost first = before.spec_last_scanned();
        let ghost next = if second_of(now) >= first { second_of(now) } else { first };
        let mut drained: Vec<TtlEntry> = Vec::new();
        let n = self.shards.len();
        let mut i: usize = 0;
        while i < n
            invariant
                n == self.shard_count(),
                n == before.shard_count(),
                0 < n <= MAX_TTL_SHARDS,
                i <= n,
                forall|j: int| 0 <= j < n ==> #[trigger] self.shards()[j].wf(),
                forall|j: int| 0 <= j < i ==> #[trigger] self.shards()[j].spec_last_scanned() == next,
                forall|j: int| i <= j < n ==> #[trigger] self.shards()[j] == before.shards()[j],
                forall|j: int, id: KeyId, e: Millis| 0 <= j < n && #[trigger] self.shards()[j].has(id, e) ==> id as int % (n as int) == j,
                forall|j: int, id: KeyId, e: Millis| 0 <= j < i ==> (#[trigger] self.shards()[j].has(id, e) <==> before.shards()[j].has(
                    id,
                    e,
                ) && !(e <= now && first <= second_of(e))),
                forall|t: TtlEntry| #[trigger] drained@.contains(t) <==> before.has(t.key_id, t.expire_after) && t.expire_after
                    <= now && first <= second_of(t.expire_after) && (t.key_id as int % (n as int)) < i,
                before.wf(),
                first == before.spec_last_scanned(),
                next == if second_of(now) >= first {
                    second_of(now)
                } else {
                    first
                },
            decreases n - i,
        {
            let ghost mid = *self;
            let mut shard = self.shards.remove(i);
            proof {
                assert(shard == before.shards()[i as int]);
                assert(shard.spec_last_scanned() == first);
            }
            let mut due = shard.expire(now);
            let ghost due_view = due@;
            let ghost d0 = drained@;
            self.shards.insert(i, shard);
            drained.append(&mut due);
            proof {
                assert(self.shards() =~= mid.shards().update(i as int, shard));
                assert forall|j: int, id: KeyId, e: Millis| 0 <= j < n && #[trigger] self.shards()[j].has(id, e) implies id as int
                    % (n as int) == j by {
                    if j == i {
                        assert(before.shards()[j].has(id, e));
                    } else {
                        assert(mid.shards()[j].has(id, e));
                    }
                }
                assert forall|j: int, id: KeyId, e: Millis| 0 <= j < i + 1 implies (#[trigger] self.shards()[j].has(id, e)
                    <==> before.shards()[j].has(id, e) && !(e <= now && first <= second_of(e))) by {
                    if j < i {
                        assert(self.shards()[j] == mid.shards()[j]);
                    }
                }
                assert forall|t: TtlEntry| #[trigger] drained@.contains(t) <==> before.has(t.key_id, t.expire_after)
                    && t.expire_after <= now && first <= second_of(t.expire_after) && (t.key_id as int % (n as int)) < i + 1 by {
                    vstd::seq_lib::lemma_seq_concat_contains_all_elements(d0, due_view, t);
                    if due_view.contains(t) {
                        assert(before.shards()[i as int].has(t.key_id, t.expire_after));
                        assert(t.key_id as int % (n as int) == i);
                    }
                    if before.has(t.key_id, t.expire_after) && t.key_id as int % (n as int) == i {
                        assert(before.shards()[i as int].has(t.key_id, t.expire_after));
                    }
                }
                assert forall|j: int| 0 <= j < i + 1 implies #[trigger] self.shards()[j].spec_last_scanned() == next by {
                    if j < i {
                        assert(self.shards()[j] == mid.shards()[j]);
                    } else {
                        assert(self.shards()[j] == shard);
                    }
                }
            }
            i = i + 1;
        }
        proof {
            assert forall|id: KeyId, e: Millis| #[trigger] self.has(id, e) <==> before.has(id, e) && !(e <= now && first
                <= second_of(e)) by {
                assert(0 <= id as int % (n as int) < n);
            }
            assert forall|t: TtlEntry| #[trigger] drained@.contains(t) <==> before.has(t.key_id, t.expire_after)
                && t.expire_after <= now && first <= second_of(t.expire_after) by {
                assert(0 <= t.key_id as int % (n as int) < n);
            }
            assert forall|j: int| 0 <= j < self.shard_count() implies #[trigger] self.shards()[j].spec_last_scanned()
                == self.spec_last_scanned() by {
            }
        }
        drained
    }

    /// Drops every registration.
    pub fn clear(&mut self)
        requires
            old(self).wf(),
        ensures
            final(self).wf(),
            final(self).shard_count() == old(self).shard_count(),
            final(self).spec_last_scanned() == old(self).spec_last_scanned(),
            forall|id: KeyId, e: Millis| !final(self).has(id, e),
    {
        let ghost before = *self;
        let n = self.shards.len();
        let mut i: usize = 0;
        while i < n
            invariant
                n == self.shard_count(),
                before.wf(),
                n == before.shard_count(),
                i <= n,
                forall|j: int| 0 <= j < n ==> #[trigger] self.shards()[j].wf(),
                forall|j: int| 0 <= j < n ==> #[trigger] self.shards()[j].spec_last_scanned() == before.spec_last_scanned(),
                forall|j: int, id: KeyId, e: Millis| 0 <= j < i ==> !#[trigger] self.shards()[j].has(id, e),
                forall|j: int| i <= j < n ==> #[trigger] self.shards()[j] == before.shards()[j],
                forall|j: int, id: KeyId, e: Millis| 0 <= j < n && #[trigger] self.shards()[j].has(id, e) ==> id as int % (n as int) == j,
            decreases n - i,
        {
            let ghost mid = *self;
            let mut shard = self.shards.remove(i);
            proof { assert(shard == before.shards()[i as int]); }
            shard.clear();
            self.shards.insert(i, shard);
            proof {
                assert(self.shards() =~= mid.shards().update(i as int, shard));
                assert forall|j: int, id: KeyId, e: Millis| 0 <= j < n && #[trigger] self.shards()[j].has(id, e) implies id as int
                    % (n as int) == j by {
                    assert(j != i);
                    assert(mid.shards()[j].has(id, e));
                }
                assert forall|j: int, id: KeyId, e: Millis| 0 <= j < i + 1 implies !#[trigger] self.shards()[j].has(id, e) by {
                    if j < i {
                        assert(self.shards()[j] == mid.shards()[j]);
                    }
                }
            }
            i = i + 1;
        }
        proof {
            assert forall|id: KeyId, e: Millis| !self.has(id, e) by {
                assert(0 <= id as int % (n as int) < n);
            }
            assert(self.shards()[0].spec_last_scanned() == before.spec_last_scanned());
        }
    }
}

} // verus!
