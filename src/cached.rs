use vstd::prelude::*;

use std::hash::Hash;

use crate::command::{CommandExecutor, CommandType, expiry_after};
use crate::config::Config;
use crate::expiration::TtlTicker;
use crate::key_description::KeyDescription;
use crate::policy::{AdmissionPolicy, absorbed};
use crate::pool::Pool;
use crate::store::TypeOfExpiryUpdate;
use crate::stored_value::StoredValue;
use crate::table::KeyWeightEntry;
use crate::table::{lemma_table_view_index, sum_weights};
use crate::types::{CommandSendError, CommandStatus, KeyId, Millis, Weight, keys_behave, second_of};
use crate::upsert::UpsertRequest;

verus! {

/// `m` is what `f` made of a clone of `stored`.
pub open spec fn mapped_clone<Value: Clone, M, F: Fn(Value) -> M>(f: F, stored: Value, m: M) -> bool {
    exists|v: Value| cloned(stored, v) && #[trigger] f.ensures((v,), m)
}

/// Weight that a registration with the TTL ticker adds to an entry.
pub const TTL_TICKER_ENTRY_SIZE: Weight = 24;

/// A cache of typed keys and values under a weight budget, admitting keys
/// by estimated access frequency and expiring them by time to live.
///
/// Writes go through the single writer one command at a time; reads record
/// the key's hash for the frequency sketch.
pub struct CacheD<Key, Value, H, W> {
    executor: CommandExecutor<Key, Value>,
    pool: Pool,
    key_hash_fn: H,
    weight_calculation_fn: W,
    next_key_id: KeyId,
    is_shutting_down: bool,
}

impl<Key: Hash + Eq + Clone, Value, H: Fn(&Key) -> u64, W: Fn(&Key, &Value, bool) -> Weight> CacheD<Key, Value, H, W> {
    pub closed spec fn executor(&self) -> CommandExecutor<Key, Value> {
        self.executor
    }

    pub closed spec fn spec_next_key_id(&self) -> KeyId {
        self.next_key_id
    }

    pub closed spec fn spec_is_shutting_down(&self) -> bool {
        self.is_shutting_down
    }

    pub closed spec fn pool(&self) -> Pool {
        self.pool
    }

    pub closed spec fn hash_fn(&self) -> H {
        self.key_hash_fn
    }

    pub closed spec fn weight_fn(&self) -> W {
        self.weight_calculation_fn
    }

    /// Resident entries by key.
    pub open spec fn view(&self) -> Map<Key, StoredValue<Value>> {
        self.executor().view()
    }

    /// What the resident keys weigh together.
    pub open spec fn weight_used(&self) -> Weight {
        self.executor().policy().spec_weight_used()
    }

    pub open spec fn total_cache_weight(&self) -> Weight {
        self.executor().policy().spec_total_cache_weight()
    }

    /// The weight bound holds.
    pub open spec fn within_budget(&self) -> bool {
        self.weight_used() <= self.total_cache_weight()
    }

    /// `key` is resident with `value`, and alive at `now`.
    pub open spec fn holds(&self, key: Key, value: Value, now: Millis) -> bool {
        &&& self.view().contains_key(key)
        &&& self.view()[key].spec_value() == value
        &&& self.view()[key].alive_at(now)
    }

    pub open spec fn wf(&self) -> bool {
        &&& self.executor().wf()
        &&& self.pool().wf()
        &&& forall|id: KeyId| #[trigger] self.executor().holds_id(id) ==> id < self.spec_next_key_id()
        &&& forall|k: &Key| #[trigger] self.hash_fn().requires((k,))
        &&& forall|k: &Key, v: &Value, t: bool| #[trigger] self.weight_fn().requires((k, v, t))
        &&& forall|k: &Key, v: &Value, t: bool, w: Weight| #[trigger] self.weight_fn().ensures((k, v, t), w) ==> w > 0
        &&& self.spec_is_shutting_down() ==> self.view() == Map::<Key, StoredValue<Value>>::empty()
    }

    pub fn new(config: Config, key_hash_fn: H, weight_calculation_fn: W, now: Millis) -> (r: Self)
        requires
            config.valid(),
            keys_behave::<Key>(),
            forall|k: &Key| #[trigger] key_hash_fn.requires((k,)),
            forall|k: &Key, v: &Value, t: bool| #[trigger] weight_calculation_fn.requires((k, v, t)),
            forall|k: &Key, v: &Value, t: bool, w: Weight| #[trigger] weight_calculation_fn.ensures((k, v, t), w) ==> w > 0,
        ensures
            r.wf(),
            r.view() == Map::<Key, StoredValue<Value>>::empty(),
            r.weight_used() == 0,
            r.total_cache_weight() == config.total_cache_weight,
            !r.spec_is_shutting_down(),
            r.spec_next_key_id() == 1,
            forall|hash: u64| #[trigger] r.executor().policy().sketch().estimate_spec(hash) == 0,
    {
        CacheD {
            executor: CommandExecutor::new(config.counters, config.total_cache_weight, config.ttl_shards, now),
            pool: Pool::new(config.access_pool_size, config.access_buffer_size),
            key_hash_fn,
            weight_calculation_fn,
            next_key_id: 1,
            is_shutting_down: false,
        }
    }

    pub fn is_shutting_down(&self) -> (r: bool)
        ensures
            r == self.spec_is_shutting_down(),
    {
        self.is_shutting_down
    }

    /// The id the next write will get.
    pub fn next_key_id(&self) -> (r: KeyId)
        ensures
            r == self.spec_next_key_id(),
    {
        self.next_key_id
    }

    /// The entry of `key`, alive or not; looking is not counted as a read.
    pub fn entry(&self, key: &Key) -> (r: Option<&StoredValue<Value>>)
        requires
            self.wf(),
        ensures
            r == if self.view().contains_key(*key) {
                Some(&self.view()[*key])
            } else {
                None::<&StoredValue<Value>>
            },
    {
        self.executor.entry(key)
    }

    /// Whether `key` is resident, alive or not.
    pub fn contains_key(&self, key: &Key) -> (r: bool)
        requires
            self.wf(),
        ensures
            r == self.view().contains_key(*key),
    {
        self.executor.contains_key(key)
    }

    /// Writes `key` with `value` and `weight`, expiring `time_to_live` after
    /// `now` when one is given.
    fn write(&mut self, key: Key, value: Value, weight: Weight, time_to_live: Option<Millis>, now: Millis) -> (r: Result<
        CommandStatus,
        CommandSendError,
    >)
        requires
            old(self).wf(),
            weight > 0,
            old(self).spec_next_key_id() < u64::MAX,
        ensures
            final(self).wf(),
            Self::written(*old(self), *final(self), key, value, weight, match time_to_live {
                Some(t) => Some(expiry_after(now, t)),
                None => None,
            }, r),
    {
        if self.is_shutting_down {
            return Err(CommandSendError::Shutdown);
        }
        let ghost before = *self;
        assert(self.hash_fn().requires((&key,)));
        let hash = (self.key_hash_fn)(&key);
        let id = self.next_key_id;
        self.next_key_id = id + 1;
        let description = KeyDescription::new(key, id, hash, weight);
        let ghost d = description;
        let ghost v = value;
        let ghost expiry = match time_to_live {
            Some(t) => Some(expiry_after(now, t)),
            None => None,
        };
        let command = match time_to_live {
            Some(t) => CommandType::PutWithTTL(description, value, t),
            None => CommandType::Put(description, value),
        };
        let status = self.executor.apply(command, now);
        proof {
            assert(before.hash_fn().ensures((&d.key,), hash));
            let victims = choose|victims: Seq<KeyWeightEntry<Key>>| CommandExecutor::put_outcome(
                before.executor(),
                self.executor(),
                d,
                v,
                expiry,
                victims,
                status,
            );
            assert(CommandExecutor::put_outcome(before.executor(), self.executor(), d, v, expiry, victims, status));
            assert(d == (KeyDescription { key: d.key, id: before.spec_next_key_id(), hash, weight }));
            assert(CommandExecutor::put_outcome(
                before.executor(),
                self.executor(),
                KeyDescription { key: d.key, id: before.spec_next_key_id(), hash, weight },
                v,
                expiry,
                victims,
                status,
            ));
            assert(!self.spec_is_shutting_down());
            assert(self.spec_next_key_id() == before.spec_next_key_id() + 1);
            assert(self.total_cache_weight() == before.total_cache_weight());
            assert(d.key == key && v == value);
            assert(Self::write_applied(before, *self, key, value, weight, expiry, status));
            assert forall|i: KeyId| #[trigger] self.executor().holds_id(i) implies i < self.spec_next_key_id() by {
                if i != id {
                    assert(before.executor().holds_id(i));
                }
            }
            Self::lemma_fns_kept(before, *self);
        }
        Ok(status)
    }

    /// What a write of `key` did: nothing after shutdown; else the next id
    /// was used up and the single writer applied the write under it, with
    /// the key's hash (see `CommandExecutor::put_outcome`): an accepted write
    /// stored the value with its weight, a rejected one left the key's entry
    /// as it was unless it was evicted.
    pub open spec fn written(
        before: Self,
        after: Self,
        key: Key,
        value: Value,
        weight: Weight,
        expiry: Option<Millis>,
        r: Result<CommandStatus, CommandSendError>,
    ) -> bool {
        if before.spec_is_shutting_down() {
            r == Err::<CommandStatus, CommandSendError>(CommandSendError::Shutdown) && after == before
        } else {
            &&& r is Ok
            &&& after.spec_next_key_id() == before.spec_next_key_id() + 1
            &&& !after.spec_is_shutting_down()
            &&& after.total_cache_weight() == before.total_cache_weight()
            &&& after.executor().policy().sketch() == before.executor().policy().sketch()
            &&& Self::write_applied(before, after, key, value, weight, expiry, r->Ok_0)
        }
    }

    /// The single writer applied a write of `key` under the next id, with
    /// the key's hash, evicting some residents.
    pub open spec fn write_applied(
        before: Self,
        after: Self,
        key: Key,
        value: Value,
        weight: Weight,
        expiry: Option<Millis>,
        status: CommandStatus,
    ) -> bool {
        exists|hash: u64, victims: Seq<KeyWeightEntry<Key>>|
            before.hash_fn().ensures((&key,), hash) && #[trigger] CommandExecutor::put_outcome(
                before.executor(),
                after.executor(),
                KeyDescription { key, id: before.spec_next_key_id(), hash, weight },
                value,
                expiry,
                victims,
                status,
            )
    }

    /// Puts `key` with `value`, weighed by the weight calculation.
    pub fn put(&mut self, key: Key, value: Value) -> (r: Result<CommandStatus, CommandSendError>)
        requires
            old(self).wf(),
            old(self).spec_next_key_id() < u64::MAX,
        ensures
            final(self).wf(),
            old(self).spec_is_shutting_down() ==> r == Err::<CommandStatus, CommandSendError>(CommandSendError::Shutdown)
                && *final(self) == *old(self),
            !old(self).spec_is_shutting_down() ==> exists|w: Weight| #[trigger] old(self).weight_fn().ensures(
                (&key, &value, false),
                w,
            ) && Self::written(*old(self), *final(self), key, value, w, None, r),
    {
        if self.is_shutting_down {
            return Err(CommandSendError::Shutdown);
        }
        assert(self.weight_fn().requires((&key, &value, false)));
        let weight = (self.weight_calculation_fn)(&key, &value, false);
        assert(self.weight_fn().ensures((&key, &value, false), weight));
        // a write without an expiry never reads the time
        self.write(key, value, weight, None, 0)
    }

    /// Puts `key` with `value` and the given weight.
    pub fn put_with_weight(&mut self, key: Key, value: Value, weight: Weight) -> (r: Result<CommandStatus, CommandSendError>)
        requires
            old(self).wf(),
            weight > 0,
            old(self).spec_next_key_id() < u64::MAX,
        ensures
            final(self).wf(),
            Self::written(*old(self), *final(self), key, value, weight, None, r),
    {
        // a write without an expiry never reads the time
        self.write(key, value, weight, None, 0)
    }

    /// Puts `key` with `value`, expiring `time_to_live` milliseconds after
    /// `now`, weighed by the weight calculation.
    pub fn put_with_ttl(&mut self, key: Key, value: Value, time_to_live: Millis, now: Millis) -> (r: Result<
        CommandStatus,
        CommandSendError,
    >)
        requires
            old(self).wf(),
            old(self).spec_next_key_id() < u64::MAX,
        ensures
            final(self).wf(),
            old(self).spec_is_shutting_down() ==> r == Err::<CommandStatus, CommandSendError>(CommandSendError::Shutdown)
                && *final(self) == *old(self),
            !old(self).spec_is_shutting_down() ==> exists|w: Weight| #[trigger] old(self).weight_fn().ensures(
                (&key, &value, true),
                w,
            ) && Self::written(*old(self), *final(self), key, value, w, Some(expiry_after(now, time_to_live)), r),
    {
        if self.is_shutting_down {
            return Err(CommandSendError::Shutdown);
        }
        assert(self.weight_fn().requires((&key, &value, true)));
        let weight = (self.weight_calculation_fn)(&key, &value, true);
        assert(self.weight_fn().ensures((&key, &value, true), weight));
        self.write(key, value, weight, Some(time_to_live), now)
    }

    /// Puts `key` with `value` and the given weight, expiring `time_to_live`
    /// milliseconds after `now`.
    pub fn put_with_weight_and_ttl(&mut self, key: Key, value: Value, weight: Weight, time_to_live: Millis, now: Millis) -> (r:
        Result<CommandStatus, CommandSendError>)
        requires
            old(self).wf(),
            weight > 0,
            old(self).spec_next_key_id() < u64::MAX,
        ensures
            final(self).wf(),
            Self::written(*old(self), *final(self), key, value, weight, Some(expiry_after(now, time_to_live)), r),
    {
        self.write(key, value, weight, Some(time_to_live), now)
    }

    /// What a delete of `key` did: nothing after shutdown; else the single
    /// writer deleted it (see `CommandExecutor::deleted`), and a missing key
    /// changed nothing.
    pub open spec fn deleted(before: Self, after: Self, key: Key, r: Result<CommandStatus, CommandSendError>) -> bool {
        if before.spec_is_shutting_down() {
            r == Err::<CommandStatus, CommandSendError>(CommandSendError::Shutdown) && after == before
        } else {
            &&& r is Ok
            &&& CommandExecutor::deleted(before.executor(), after.executor(), key, r->Ok_0)
            &&& !before.view().contains_key(key) ==> after == before
            &&& after.spec_next_key_id() == before.spec_next_key_id()
            &&& !after.spec_is_shutting_down()
            &&& after.total_cache_weight() == before.total_cache_weight()
        }
    }

    /// Deletes `key`: `Accepted` when it was present, `Rejected` when not.
    pub fn delete(&mut self, key: Key) -> (r: Result<CommandStatus, CommandSendError>)
        requires
            old(self).wf(),
        ensures
            final(self).wf(),
            Self::deleted(*old(self), *final(self), key, r),
    {
        if self.is_shutting_down {
            return Err(CommandSendError::Shutdown);
        }
        let ghost before = *self;
        // a delete never reads the time
        let status = self.executor.apply(CommandType::Delete(key), 0);
        proof {
            Self::lemma_fns_kept(before, *self);
            assert forall|i: KeyId| #[trigger] self.executor().holds_id(i) implies i < self.spec_next_key_id() by {
                assert(before.executor().holds_id(i));
            }
            if !before.view().contains_key(key) {
                assert(self.executor() == before.executor());
            }
        }
        Ok(status)
    }

    /// `after` is `before` with a read of `key` recorded: the key's hash
    /// joins its stripe of the access pool, and a stripe that fills up is
    /// absorbed by the sketch and emptied.
    pub open spec fn accessed(before: Self, after: Self, key: Key) -> bool {
        exists|h: u64| {
            &&& #[trigger] before.hash_fn().ensures((&key,), h)
            &&& {
                let s = before.pool().stripe_of(h);
                let filled = before.pool().buffered(s).push(h);
                &&& forall|i: int| 0 <= i < before.pool().spec_pool_size() && i != s ==> #[trigger] after.pool().buffered(i)
                    == before.pool().buffered(i)
                &&& if filled.len() == before.pool().spec_buffer_size() {
                    absorbed(before.executor().policy().sketch(), after.executor().policy().sketch(), filled)
                        && after.pool().buffered(s).len() == 0
                } else {
                    after.executor().policy().sketch() == before.executor().policy().sketch() && after.pool().buffered(s)
                        == filled
                }
            }
        }
    }

    /// Records a read of `key` for the frequency sketch; a full access
    /// buffer is drained into the sketch.
    fn mark_key_accessed(&mut self, key: &Key)
        requires
            old(self).wf(),
        ensures
            final(self).wf(),
            Self::accessed(*old(self), *final(self), *key),
            final(self).view() == old(self).view(),
            final(self).executor().policy().view() == old(self).executor().policy().view(),
            final(self).weight_used() == old(self).weight_used(),
            final(self).total_cache_weight() == old(self).total_cache_weight(),
            final(self).spec_next_key_id() == old(self).spec_next_key_id(),
            final(self).spec_is_shutting_down() == old(self).spec_is_shutting_down(),
    {
        let ghost before = *self;
        assert(self.hash_fn().requires((key,)));
        let hash = (self.key_hash_fn)(key);
        if let Some(batch) = self.pool.add(hash) {
            self.executor.record_accesses(&batch);
        }
        proof {
            assert(before.hash_fn().ensures((key,), hash));
            Self::lemma_fns_kept(before, *self);
            assert forall|i: KeyId| #[trigger] self.executor().holds_id(i) implies i < self.spec_next_key_id() by {
                assert(before.executor().holds_id(i));
            }
        }
    }

    /// The value of `key` if it is resident and alive at `now`; a hit is
    /// recorded for the frequency sketch.
    pub fn get(&mut self, key: &Key, now: Millis) -> (r: Option<Value>)
        where
            Value: Clone,
        requires
            old(self).wf(),
        ensures
            final(self).wf(),
            final(self).view() == old(self).view(),
            final(self).weight_used() == old(self).weight_used(),
            final(self).total_cache_weight() == old(self).total_cache_weight(),
            final(self).spec_next_key_id() == old(self).spec_next_key_id(),
            final(self).spec_is_shutting_down() == old(self).spec_is_shutting_down(),
            match r {
                Some(v) => !old(self).spec_is_shutting_down() && old(self).view().contains_key(*key)
                    && old(self).view()[*key].alive_at(now) && cloned(old(self).view()[*key].spec_value(), v)
                    && Self::accessed(*old(self), *final(self), *key),
                None => (old(self).spec_is_shutting_down() || !old(self).view().contains_key(*key)
                    || !old(self).view()[*key].alive_at(now)) && *final(self) == *old(self),
            },
    {
        if self.is_shutting_down {
            return None;
        }
        let found = match self.executor.get_ref(key, now) {
            Some(stored) => Some(stored.value()),
            None => None,
        };
        if found.is_some() {
            self.mark_key_accessed(key);
        }
        found
    }

    /// The stored entry of `key` if it is resident and alive at `now`; a hit
    /// is recorded for the frequency sketch.
    pub fn get_ref(&mut self, key: &Key, now: Millis) -> (r: Option<&StoredValue<Value>>)
        requires
            old(self).wf(),
        ensures
            final(self).wf(),
            final(self).view() == old(self).view(),
            final(self).weight_used() == old(self).weight_used(),
            final(self).spec_next_key_id() == old(self).spec_next_key_id(),
            final(self).spec_is_shutting_down() == old(self).spec_is_shutting_down(),
            r == if !old(self).spec_is_shutting_down() && old(self).view().contains_key(*key) && old(self).view()[*key].alive_at(
                now,
            ) {
                Some(&old(self).view()[*key])
            } else {
                None::<&StoredValue<Value>>
            },
            r is Some ==> Self::accessed(*old(self), *final(self), *key),
            r is None ==> *final(self) == *old(self),
    {
        if self.is_shutting_down {
            return None;
        }
        let hit = match self.executor.get_ref(key, now) {
            Some(_) => true,
            None => false,
        };
        if hit {
            self.mark_key_accessed(key);
        }
        self.executor.get_ref(key, now)
    }

    /// `map_fn` applied to the value of `key`, if it is resident and alive
    /// at `now`.
    pub fn map_get<M, F: Fn(Value) -> M>(&mut self, key: &Key, now: Millis, map_fn: F) -> (r: Option<M>)
        where
            Value: Clone,
        requires
            old(self).wf(),
            forall|v: Value| #[trigger] map_fn.requires((v,)),
        ensures
            final(self).wf(),
            final(self).view() == old(self).view(),
            final(self).weight_used() == old(self).weight_used(),
            final(self).spec_next_key_id() == old(self).spec_next_key_id(),
            final(self).spec_is_shutting_down() == old(self).spec_is_shutting_down(),
            match r {
                Some(m) => {
                    &&& !old(self).spec_is_shutting_down()
                    &&& old(self).view().contains_key(*key)
                    &&& old(self).view()[*key].alive_at(now)
                    &&& mapped_clone(map_fn, old(self).view()[*key].spec_value(), m)
                },
                None => old(self).spec_is_shutting_down() || !old(self).view().contains_key(*key)
                    || !old(self).view()[*key].alive_at(now),
            },
    {
        match self.get(key, now) {
            Some(v) => {
                let ghost gv = v;
                let m = map_fn(v);
                assert(cloned(old(self).view()[*key].spec_value(), gv) && map_fn.ensures((gv,), m));
                assert(mapped_clone(map_fn, old(self).view()[*key].spec_value(), m));
                Some(m)
            },
            None => None,
        }
    }

    /// `map_fn` applied to the stored entry of `key`, if it is resident and
    /// alive at `now`.
    pub fn map_get_ref<M, F: Fn(&StoredValue<Value>) -> M>(&mut self, key: &Key, now: Millis, map_fn: F) -> (r: Option<M>)
        requires
            old(self).wf(),
            forall|s: &StoredValue<Value>| #[trigger] map_fn.requires((s,)),
        ensures
            final(self).wf(),
            final(self).view() == old(self).view(),
            final(self).weight_used() == old(self).weight_used(),
            final(self).spec_next_key_id() == old(self).spec_next_key_id(),
            final(self).spec_is_shutting_down() == old(self).spec_is_shutting_down(),
            match r {
                Some(m) => !old(self).spec_is_shutting_down() && old(self).view().contains_key(*key) && old(self).view()[*key].alive_at(now)
                    && map_fn.ensures((&old(self).view()[*key],), m) && Self::accessed(*old(self), *final(self), *key),
                None => (old(self).spec_is_shutting_down() || !old(self).view().contains_key(*key) || !old(self).view()[*key].alive_at(now))
                    && *final(self) == *old(self),
            },
    {
        match self.get_ref(key, now) {
            Some(stored) => Some(map_fn(stored)),
            None => None,
        }
    }

    /// The values of `keys`, in order, as `get` gives them one by one; none
    /// at all once the cache is shutting down.
    pub fn multi_get(&mut self, keys: &Vec<Key>, now: Millis) -> (r: Vec<Option<Value>>)
        where
            Value: Clone,
        requires
            old(self).wf(),
        ensures
            final(self).wf(),
            final(self).view() == old(self).view(),
            final(self).weight_used() == old(self).weight_used(),
            final(self).spec_next_key_id() == old(self).spec_next_key_id(),
            final(self).spec_is_shutting_down() == old(self).spec_is_shutting_down(),
            old(self).spec_is_shutting_down() ==> r@.len() == 0,
            !old(self).spec_is_shutting_down() ==> r@.len() == keys@.len() && forall|i: int| 0 <= i < keys@.len() ==> match #[trigger] r@[i] {
                Some(v) => old(self).view().contains_key(keys@[i]) && old(self).view()[keys@[i]].alive_at(now)
                    && cloned(old(self).view()[keys@[i]].spec_value(), v),
                None => !old(self).view().contains_key(keys@[i]) || !old(self).view()[keys@[i]].alive_at(now),
            },
    {
        let mut values: Vec<Option<Value>> = Vec::new();
        if self.is_shutting_down {
            return values;
        }
        let ghost before = *self;
        let mut i: usize = 0;
        while i < keys.len()
            invariant
                self.wf(),
                !self.spec_is_shutting_down(),
                self.view() == before.view(),
                self.weight_used() == before.weight_used(),
                self.spec_next_key_id() == before.spec_next_key_id(),
                i <= keys@.len(),
                values@.len() == i,
                forall|j: int| 0 <= j < i ==> match #[trigger] values@[j] {
                    Some(v) => before.view().contains_key(keys@[j]) && before.view()[keys@[j]].alive_at(now)
                        && cloned(before.view()[keys@[j]].spec_value(), v),
                    None => !before.view().contains_key(keys@[j]) || !before.view()[keys@[j]].alive_at(now),
                },
            decreases keys@.len() - i,
        {
            let v = self.get(&keys[i], now);
            values.push(v);
            i = i + 1;
        }
        values
    }

    /// What the resident keys weigh together.
    pub fn total_weight_used(&self) -> (r: Weight)
        ensures
            r == self.weight_used(),
    {
        self.executor.policy_ref().weight_used()
    }

    pub fn admission_policy(&self) -> (r: &AdmissionPolicy<Key>)
        ensures
            *r == self.executor().policy(),
    {
        self.executor.policy_ref()
    }

    pub fn ttl_ticker(&self) -> (r: &TtlTicker)
        ensures
            *r == self.executor().ticker(),
    {
        self.executor.ticker_ref()
    }

    /// Evicts the entries whose time to live has run out at `now`.
    pub fn expire(&mut self, now: Millis)
        requires
            old(self).wf(),
        ensures
            final(self).wf(),
            forall|k: Key| #[trigger] final(self).view().contains_key(k) ==> old(self).view().contains_key(k)
                && final(self).view()[k] == old(self).view()[k],
            forall|k: Key| #[trigger] old(self).view().contains_key(k) && !final(self).view().contains_key(k) ==> !old(
                self,
            ).view()[k].alive_at(now),
            forall|k: Key| #[trigger] old(self).view().contains_key(k) && CommandExecutor::<Key, Value>::due(
                old(self).view()[k],
                old(self).executor().ticker(),
                now,
            ) ==> !final(self).view().contains_key(k),
            final(self).spec_next_key_id() == old(self).spec_next_key_id(),
            final(self).spec_is_shutting_down() == old(self).spec_is_shutting_down(),
            final(self).total_cache_weight() == old(self).total_cache_weight(),
            final(self).weight_used() <= old(self).weight_used(),
            forall|id: KeyId| #[trigger] final(self).executor().holds_id(id) ==> old(self).executor().holds_id(id)
                && final(self).executor().policy().view()[id] == old(self).executor().policy().view()[id],
    {
        let ghost before = *self;
        self.executor.expire(now);
        proof {
            Self::lemma_fns_kept(before, *self);
            assert forall|i: KeyId| #[trigger] self.executor().holds_id(i) implies i < self.spec_next_key_id() by {
                assert(before.executor().holds_id(i));
            }
            if self.spec_is_shutting_down() {
                assert(self.view() =~= Map::<Key, StoredValue<Value>>::empty());
            }
        }
    }

    /// What a shutdown did: the cache is shutting down and empty; a second
    /// shutdown changes nothing.
    pub open spec fn shut_down(before: Self, after: Self) -> bool {
        &&& after.spec_is_shutting_down()
        &&& after.view() == Map::<Key, StoredValue<Value>>::empty()
        &&& after.weight_used() == 0
        &&& after.within_budget()
        &&& before.spec_is_shutting_down() ==> after == before
    }

    /// Stops accepting writes and drops every entry. Only the first call
    /// does anything.
    pub fn shutdown(&mut self)
        requires
            old(self).wf(),
        ensures
            final(self).wf(),
            Self::shut_down(*old(self), *final(self)),
    {
        proof {
            if self.spec_is_shutting_down() {
                self.lemma_nothing_held_weighs_nothing();
            }
        }
        if !self.is_shutting_down {
            let ghost before = *self;
            self.is_shutting_down = true;
            self.executor.clear();
            proof {
                Self::lemma_fns_kept(before, *self);
            }
        }
    }

    /// The expiry an upsert leaves on a present entry.
    pub open spec fn upserted_expiry(
        current: Option<Millis>,
        time_to_live: Option<Millis>,
        remove_time_to_live: bool,
        now: Millis,
    ) -> Option<Millis> {
        match time_to_live {
            Some(t) => Some(expiry_after(now, t)),
            None => if remove_time_to_live {
                None
            } else {
                current
            },
        }
    }

    /// Updates `request.key` in place when it is present; puts it otherwise.
    ///
    /// An absent key is put with the request's value and weight (or the
    /// weight calculated for them). A present key keeps its id; its value and
    /// expiry change as asked, and its weight becomes the one given, else the
    /// one calculated for the new value, else its old weight adjusted by the
    /// size of a ticker registration when the expiry was added or removed.
    pub fn upsert(&mut self, request: UpsertRequest<Key, Value>, now: Millis) -> (r: Result<CommandStatus, CommandSendError>)
        requires
            old(self).wf(),
            old(self).spec_next_key_id() < u64::MAX,
            request.weight is Some ==> request.weight->0 > 0,
            !old(self).spec_is_shutting_down() && !old(self).view().contains_key(request.key) ==> request.value is Some,
            Self::removal_keeps_weight_positive(*old(self), request),
        ensures
            final(self).wf(),
            old(self).spec_is_shutting_down() ==> r == Err::<CommandStatus, CommandSendError>(CommandSendError::Shutdown)
                && *final(self) == *old(self),
            !old(self).spec_is_shutting_down() && !old(self).view().contains_key(request.key) ==> exists|w: Weight|
                #[trigger] Self::upsert_weight(*old(self), request, w) && Self::written(
                    *old(self),
                    *final(self),
                    request.key,
                    request.value->0,
                    w,
                    match request.time_to_live {
                        Some(t) => Some(expiry_after(now, t)),
                        None => None,
                    },
                    r,
                ),
            !old(self).spec_is_shutting_down() && old(self).view().contains_key(request.key) ==> {
                let current = old(self).view()[request.key];
                let id = current.spec_key_id();
                let expiry = Self::upserted_expiry(
                    current.spec_expire_after(),
                    request.time_to_live,
                    request.remove_time_to_live,
                    now,
                );
                let old_weight = old(self).executor().policy().view()[id].weight;
                &&& final(self).view().dom() == old(self).view().dom()
                &&& forall|k: Key| k != request.key && #[trigger] old(self).view().contains_key(k) ==> final(self).view()[k]
                    == old(self).view()[k]
                &&& final(self).view()[request.key].spec_key_id() == id
                &&& final(self).view()[request.key].spec_value() == match request.value {
                    Some(v) => v,
                    None => current.spec_value(),
                }
                &&& final(self).view()[request.key].spec_expire_after() == expiry
                &&& CommandExecutor::<Key, Value>::ticker_moved(
                    old(self).executor().ticker(),
                    final(self).executor().ticker(),
                    id,
                    current.spec_expire_after(),
                    expiry,
                )
                &&& final(self).spec_next_key_id() == old(self).spec_next_key_id()
                &&& !final(self).spec_is_shutting_down()
                &&& final(self).total_cache_weight() == old(self).total_cache_weight()
                &&& exists|new_weight: Option<Weight>| #[trigger] Self::reweighed(*old(self), request, expiry, new_weight) && match new_weight {
                    None => r == Ok::<CommandStatus, CommandSendError>(CommandStatus::Accepted)
                        && final(self).executor().policy() == old(self).executor().policy(),
                    Some(w) => {
                        let fits = old(self).weight_used() - old_weight + w <= old(self).total_cache_weight();
                        &&& r == Ok::<CommandStatus, CommandSendError>(
                            if fits {
                                CommandStatus::Accepted
                            } else {
                                CommandStatus::Rejected
                            },
                        )
                        &&& fits ==> final(self).executor().policy().view() == old(self).executor().policy().view().insert(
                            id,
                            KeyWeightEntry { weight: w, ..old(self).executor().policy().view()[id] },
                        ) && final(self).weight_used() == old(self).weight_used() - old_weight + w
                        &&& !fits ==> final(self).executor().policy() == old(self).executor().policy()
                    },
                }
            },
    {
        if self.is_shutting_down {
            return Err(CommandSendError::Shutdown);
        }
        let ghost before = *self;
        let ghost req = request;
        let UpsertRequest { key, value, weight, time_to_live, remove_time_to_live } = request;
        if !self.executor.contains_key(&key) {
            let value = match value {
                Some(v) => v,
                None => {
                    proof { assert(false); }
                    return Err(CommandSendError::Shutdown);
                },
            };
            let w = match weight {
                Some(w) => w,
                None => {
                    assert(self.weight_fn().requires((&key, &value, time_to_live is Some)));
                    let w = (self.weight_calculation_fn)(&key, &value, time_to_live.is_some());
                    assert(self.weight_fn().ensures((&key, &value, time_to_live is Some), w));
                    w
                },
            };
            assert(Self::upsert_weight(before, req, w));
            return self.write(key, value, w, time_to_live, now);
        }
        let ghost current = self.view()[key];
        let has_ttl_after = match time_to_live {
            Some(_) => true,
            None => !remove_time_to_live && match self.executor.entry(&key) {
                Some(stored) => stored.expire_after().is_some(),
                None => false,
            },
        };
        let computed = match weight {
            Some(w) => Some(w),
            None => match &value {
                Some(v) => {
                    assert(self.weight_fn().requires((&key, v, has_ttl_after)));
                    Some((self.weight_calculation_fn)(&key, v, has_ttl_after))
                },
                None => None,
            },
        };
        let capped = match time_to_live {
            Some(t) => Some(
                if t > u64::MAX - now {
                    u64::MAX - now
                } else {
                    t
                },
            ),
            None => None,
        };
        let ghost key_copy = key;
        let ghost value_copy = value;
        let response = self.executor.update(key, value, capped, remove_time_to_live, now);
        let ghost updated = *self;
        proof {
            let after = self.view()[key_copy].spec_expire_after();
            assert(after == Self::upserted_expiry(current.spec_expire_after(), time_to_live, remove_time_to_live, now));
            assert(has_ttl_after == after is Some);
            assert(response.type_of_expiry_update == crate::store::expiry_transition(
                current.spec_key_id(),
                current.spec_expire_after(),
                after,
            ));
            if weight is None && value_copy is Some {
                assert(before.weight_fn().ensures((&key_copy, &value_copy->0, has_ttl_after), computed->0));
            }
        }
        proof {
            Self::lemma_fns_kept(before, *self);
            assert forall|i: KeyId| #[trigger] self.executor().holds_id(i) implies i < self.spec_next_key_id() by {
                assert(before.executor().holds_id(i));
            }
            assert(self.executor().policy().view().contains_key(response.key_id));
        }
        let existing = match self.executor.policy_ref().weight_of(response.key_id) {
            Some(w) => w,
            None => 0,
        };
        proof {
            assert(existing == before.executor().policy().view()[response.key_id].weight);
        }
        let new_weight = match computed {
            Some(w) => Some(w),
            None => match response.type_of_expiry_update {
                TypeOfExpiryUpdate::Added(_, _) => Some(
                    if existing > Weight::MAX - TTL_TICKER_ENTRY_SIZE {
                        Weight::MAX
                    } else {
                        existing + TTL_TICKER_ENTRY_SIZE
                    },
                ),
                TypeOfExpiryUpdate::Deleted(_, _) => Some(existing - TTL_TICKER_ENTRY_SIZE),
                _ => None,
            },
        };
        match new_weight {
            None => {
                proof {
                    assert(Self::reweighed(before, req, self.view()[key_copy].spec_expire_after(), new_weight));
                }
                Ok(CommandStatus::Accepted)
            },
            Some(w) => {
                proof {
                    assert(Self::reweighed(before, req, self.view()[key_copy].spec_expire_after(), new_weight));
                    before.executor().policy().lemma_view_weights_positive();
                    assert(existing > 0);
                    if weight is None && value_copy is Some {
                        assert(before.weight_fn().ensures((&key_copy, &value_copy->0, has_ttl_after), w));
                    }
                    assert(w > 0);
                }
                let status = self.executor.apply(CommandType::UpdateWeight(response.key_id, w), now);
                proof {
                    Self::lemma_fns_kept(updated, *self);
                    assert forall|i: KeyId| #[trigger] self.executor().holds_id(i) implies i < self.spec_next_key_id() by {
                        assert(updated.executor().holds_id(i));
                    }
                }
                Ok(status)
            },
        }
    }

    /// The weight an upsert of a present key gives it, if any: the one
    /// requested, else the one calculated for the new value and whether the
    /// entry now expires, else its weight with a ticker registration added
    /// or taken off when its expiry appeared or went away.
    pub open spec fn reweighed(cache: Self, request: UpsertRequest<Key, Value>, expiry: Option<Millis>, new_weight: Option<Weight>) -> bool {
        let current = cache.view()[request.key];
        let old_weight = cache.executor().policy().view()[current.spec_key_id()].weight;
        match request.weight {
            Some(w) => new_weight == Some(w),
            None => match request.value {
                Some(v) => new_weight is Some && cache.weight_fn().ensures((&request.key, &v, expiry is Some), new_weight->0),
                None => if current.spec_expire_after() is None && expiry is Some {
                    new_weight == Some(Self::with_ticker_entry(old_weight))
                } else if current.spec_expire_after() is Some && expiry is None {
                    new_weight == Some((old_weight - TTL_TICKER_ENTRY_SIZE) as Weight)
                } else {
                    new_weight is None
                },
            },
        }
    }

    /// Taking an entry's expiry off leaves it a positive weight.
    pub open spec fn removal_keeps_weight_positive(cache: Self, request: UpsertRequest<Key, Value>) -> bool {
        let current = cache.view()[request.key];
        !cache.spec_is_shutting_down() && cache.view().contains_key(request.key) && request.weight is None
            && request.value is None && request.time_to_live is None && request.remove_time_to_live
            && current.spec_expire_after() is Some ==> cache.executor().policy().view()[current.spec_key_id()].weight
            > TTL_TICKER_ENTRY_SIZE
    }

    /// A weight with a ticker registration added, saturating.
    pub open spec fn with_ticker_entry(weight: Weight) -> Weight {
        if weight > Weight::MAX - TTL_TICKER_ENTRY_SIZE {
            Weight::MAX
        } else {
            (weight + TTL_TICKER_ENTRY_SIZE) as Weight
        }
    }

    /// `w` is the weight an upsert of an absent key puts it with: the one
    /// requested, else the one calculated for its key and value.
    pub open spec fn upsert_weight(cache: Self, request: UpsertRequest<Key, Value>, w: Weight) -> bool {
        match request.weight {
            Some(given) => w == given,
            None => cache.weight_fn().ensures((&request.key, &request.value->0, request.time_to_live is Some), w),
        }
    }

    /// With no resident key there is no table entry and no weight in use.
    proof fn lemma_nothing_held_weighs_nothing(&self)
        requires
            self.wf(),
            self.view() == Map::<Key, StoredValue<Value>>::empty(),
        ensures
            self.weight_used() == 0,
    {
        let p = self.executor().policy();
        lemma_table_view_index(p.entries());
        if p.entries().len() > 0 {
            let id = p.entries()[0].key_id;
            assert(p.view().contains_key(id));
            assert(self.view().contains_key(p.view()[id].key));
        }
        assert(p.entries() =~= Seq::empty());
        assert(sum_weights(p.entries()) == 0);
    }

    /// The closures stay callable when they are carried over unchanged.
    proof fn lemma_fns_kept(before: Self, after: Self)
        requires
            before.wf(),
            after.hash_fn() == before.hash_fn(),
            after.weight_fn() == before.weight_fn(),
        ensures
            forall|k: &Key| #[trigger] after.hash_fn().requires((k,)),
            forall|k: &Key, v: &Value, t: bool| #[trigger] after.weight_fn().requires((k, v, t)),
            forall|k: &Key, v: &Value, t: bool, w: Weight| #[trigger] after.weight_fn().ensures((k, v, t), w) ==> w > 0,
    {
        assert forall|k: &Key| #[trigger] after.hash_fn().requires((k,)) by {
            assert(before.hash_fn().requires((k,)));
        }
        assert forall|k: &Key, v: &Value, t: bool| #[trigger] after.weight_fn().requires((k, v, t)) by {
            assert(before.weight_fn().requires((k, v, t)));
        }
        assert forall|k: &Key, v: &Value, t: bool, w: Weight| #[trigger] after.weight_fn().ensures((k, v, t), w) implies w > 0 by {
            assert(before.weight_fn().ensures((k, v, t), w));
        }
    }
}

} // verus!

verus! {

/// The weight bound: whatever sequence of writes, deletes, upserts and
/// expiry scans produced a cache, what its resident keys weigh together
/// fits the budget.
pub proof fn lemma_weight_within_budget<Key: Hash + Eq + Clone, Value, H: Fn(&Key) -> u64, W: Fn(&Key, &Value, bool) -> Weight>(
    cache: CacheD<Key, Value, H, W>,
)
    requires
        cache.wf(),
    ensures
        cache.within_budget(),
{
}

/// Identity: every resident key has exactly one table entry, the one under
/// its id, which names that key; distinct resident keys have distinct ids;
/// and every table entry belongs to a resident key.
pub proof fn lemma_identity<Key: Hash + Eq + Clone, Value, H: Fn(&Key) -> u64, W: Fn(&Key, &Value, bool) -> Weight>(
    cache: CacheD<Key, Value, H, W>,
)
    requires
        cache.wf(),
    ensures
        forall|k: Key| #[trigger] cache.view().contains_key(k) ==> {
            let id = cache.view()[k].spec_key_id();
            cache.executor().policy().view().contains_key(id) && cache.executor().policy().view()[id].key == k
        },
        forall|k1: Key, k2: Key|
            #[trigger] cache.view().contains_key(k1) && #[trigger] cache.view().contains_key(k2) && k1 != k2
                ==> cache.view()[k1].spec_key_id() != cache.view()[k2].spec_key_id(),
        forall|id: KeyId| #[trigger] cache.executor().policy().view().contains_key(id) ==> {
            let k = cache.executor().policy().view()[id].key;
            cache.view().contains_key(k) && cache.view()[k].spec_key_id() == id
        },
{
    assert forall|k1: Key, k2: Key|
        #[trigger] cache.view().contains_key(k1) && #[trigger] cache.view().contains_key(k2) && k1 != k2
            implies cache.view()[k1].spec_key_id() != cache.view()[k2].spec_key_id() by {
        let id1 = cache.view()[k1].spec_key_id();
        assert(cache.executor().policy().view()[id1].key == k1);
        let id2 = cache.view()[k2].spec_key_id();
        assert(cache.executor().policy().view()[id2].key == k2);
    }
}

/// TTL sync: every resident entry with an expiry is registered with the
/// ticker under its id, in the bucket of its expiry's second.
pub proof fn lemma_expiry_registered<Key: Hash + Eq + Clone, Value, H: Fn(&Key) -> u64, W: Fn(&Key, &Value, bool) -> Weight>(
    cache: CacheD<Key, Value, H, W>,
)
    requires
        cache.wf(),
    ensures
        forall|k: Key| #[trigger] cache.view().contains_key(k) && cache.view()[k].spec_expire_after() is Some ==> {
            let e = cache.view()[k].spec_expire_after()->0;
            &&& cache.executor().ticker().has(cache.view()[k].spec_key_id(), e)
            &&& cache.executor().ticker().has_bucket(cache.view()[k].spec_key_id(), second_of(e))
        },
{
    assert forall|k: Key| #[trigger] cache.view().contains_key(k) && cache.view()[k].spec_expire_after() is Some implies {
        let e = cache.view()[k].spec_expire_after()->0;
        &&& cache.executor().ticker().has(cache.view()[k].spec_key_id(), e)
        &&& cache.executor().ticker().has_bucket(cache.view()[k].spec_key_id(), second_of(e))
    } by {
        assert(cache.executor().expiry_in_step());
    }
}

/// Monotone ids: of two successive writes, with anything but a write in
/// between, the later one gets the larger id.
pub proof fn lemma_successive_writes_get_increasing_ids<
    Key: Hash + Eq + Clone,
    Value,
    H: Fn(&Key) -> u64,
    W: Fn(&Key, &Value, bool) -> Weight,
>(
    first_before: CacheD<Key, Value, H, W>,
    first_after: CacheD<Key, Value, H, W>,
    second_before: CacheD<Key, Value, H, W>,
    k1: Key,
    v1: Value,
    w1: Weight,
    e1: Option<Millis>,
    r1: Result<CommandStatus, CommandSendError>,
)
    requires
        !first_before.spec_is_shutting_down(),
        CacheD::written(first_before, first_after, k1, v1, w1, e1, r1),
        second_before.spec_next_key_id() >= first_after.spec_next_key_id(),
    ensures
        first_before.spec_next_key_id() < second_before.spec_next_key_id(),
{
}

/// A put that is accepted is read back: the key holds the value, alive at
/// any time, so `get` returns a clone of it.
pub proof fn lemma_put_then_get<Key: Hash + Eq + Clone, Value, H: Fn(&Key) -> u64, W: Fn(&Key, &Value, bool) -> Weight>(
    before: CacheD<Key, Value, H, W>,
    after: CacheD<Key, Value, H, W>,
    key: Key,
    value: Value,
    weight: Weight,
    r: Result<CommandStatus, CommandSendError>,
    now: Millis,
)
    requires
        CacheD::written(before, after, key, value, weight, None, r),
        r == Ok::<CommandStatus, CommandSendError>(CommandStatus::Accepted),
    ensures
        after.holds(key, value, now),
        !after.spec_is_shutting_down(),
{
}

/// A delete after a put leaves the key absent, so `get` returns nothing.
pub proof fn lemma_put_delete_then_get<Key: Hash + Eq + Clone, Value, H: Fn(&Key) -> u64, W: Fn(&Key, &Value, bool) -> Weight>(
    before: CacheD<Key, Value, H, W>,
    put: CacheD<Key, Value, H, W>,
    after: CacheD<Key, Value, H, W>,
    key: Key,
    value: Value,
    weight: Weight,
    r_put: Result<CommandStatus, CommandSendError>,
    r_delete: Result<CommandStatus, CommandSendError>,
)
    requires
        before.wf(),
        CacheD::written(before, put, key, value, weight, None, r_put),
        CacheD::deleted(put, after, key, r_delete),
    ensures
        !after.view().contains_key(key),
{
    if before.spec_is_shutting_down() {
        assert(!before.view().contains_key(key));
    }
}

/// A delete of an absent key is rejected and changes nothing.
pub proof fn lemma_delete_absent_is_rejected<Key: Hash + Eq + Clone, Value, H: Fn(&Key) -> u64, W: Fn(&Key, &Value, bool) -> Weight>(
    before: CacheD<Key, Value, H, W>,
    after: CacheD<Key, Value, H, W>,
    key: Key,
    r: Result<CommandStatus, CommandSendError>,
)
    requires
        CacheD::deleted(before, after, key, r),
        !before.spec_is_shutting_down(),
        !before.view().contains_key(key),
    ensures
        r == Ok::<CommandStatus, CommandSendError>(CommandStatus::Rejected),
        after == before,
{
}

/// Shutting down twice is shutting down once: the second call changes
/// nothing.
pub proof fn lemma_shutdown_idempotent<Key: Hash + Eq + Clone, Value, H: Fn(&Key) -> u64, W: Fn(&Key, &Value, bool) -> Weight>(
    first: CacheD<Key, Value, H, W>,
    once: CacheD<Key, Value, H, W>,
    twice: CacheD<Key, Value, H, W>,
)
    requires
        CacheD::shut_down(first, once),
        CacheD::shut_down(once, twice),
    ensures
        twice == once,
        twice.view() == Map::<Key, StoredValue<Value>>::empty(),
{
}

} // verus!
