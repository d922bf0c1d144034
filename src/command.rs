use vstd::prelude::*;

use std::hash::Hash;

use crate::expiration::{MAX_TTL_SHARDS, TtlEntry, TtlTicker};
use crate::frequency::MAX_COUNTERS;
use crate::key_description::KeyDescription;
use crate::policy::{AdmissionPolicy, ids_of};
use crate::store::{Store, TypeOfExpiryUpdate, UpdateResponse, expiry_transition, updated_expiry};
use crate::stored_value::StoredValue;
use crate::table::{KeyWeightEntry, sum_weights};
use crate::types::{CommandStatus, KeyId, Millis, Weight, keys_behave, second_of};

verus! {

/// A mutation handed to the single writer.
pub enum CommandType<Key, Value> {
    Put(KeyDescription<Key>, Value),
    PutWithTTL(KeyDescription<Key>, Value, Millis),
    Delete(Key),
    UpdateWeight(KeyId, Weight),
}

/// The instant `time_to_live` after `now`, saturating at the end of time.
pub open spec fn expiry_after(now: Millis, time_to_live: Millis) -> Millis {
    if now + time_to_live <= u64::MAX {
        (now + time_to_live) as Millis
    } else {
        u64::MAX
    }
}

/// Whether one of a run of table entries has key `k`.
pub open spec fn has_key<Key>(entries: Seq<KeyWeightEntry<Key>>, k: Key) -> bool {
    exists|m: int| 0 <= m < entries.len() && #[trigger] entries[m].key == k
}

proof fn lemma_ids_of<Key>(entries: Seq<KeyWeightEntry<Key>>, id: KeyId)
    ensures
        ids_of(entries).contains(id) <==> exists|m: int| 0 <= m < entries.len() && #[trigger] entries[m].key_id == id,
{
    let f = |e: KeyWeightEntry<Key>| e.key_id;
    let ids = entries.map_values(f);
    if ids.to_set().contains(id) {
        assert(ids.contains(id));
        let m = choose|m: int| 0 <= m < ids.len() && ids[m] == id;
        assert(entries[m].key_id == id);
    }
    if exists|m: int| 0 <= m < entries.len() && #[trigger] entries[m].key_id == id {
        let m = choose|m: int| 0 <= m < entries.len() && #[trigger] entries[m].key_id == id;
        assert(ids[m] == id);
        assert(ids.contains(id));
    }
}

/// Applies commands one at a time to the store, the admission policy and
/// the TTL ticker, keeping the three in step.
pub struct CommandExecutor<Key, Value> {
    store: Store<Key, Value>,
    policy: AdmissionPolicy<Key>,
    ttl_ticker: TtlTicker,
}

impl<Key: Hash + Eq + Clone, Value> CommandExecutor<Key, Value> {
    pub closed spec fn store(&self) -> Store<Key, Value> {
        self.store
    }

    pub closed spec fn policy(&self) -> AdmissionPolicy<Key> {
        self.policy
    }

    pub closed spec fn ticker(&self) -> TtlTicker {
        self.ttl_ticker
    }

    /// Resident entries by key.
    pub open spec fn view(&self) -> Map<Key, StoredValue<Value>> {
        self.store().view()
    }

    /// Every stored key has exactly one table entry, carrying its id and its
    /// key, and every table entry belongs to a stored key.
    pub open spec fn identity_in_step(&self) -> bool {
        &&& forall|k: Key| #[trigger] self.view().contains_key(k) ==> {
            let id = self.view()[k].spec_key_id();
            self.policy().view().contains_key(id) && self.policy().view()[id].key == k
        }
        &&& forall|id: KeyId| #[trigger] self.policy().view().contains_key(id) ==> {
            let k = self.policy().view()[id].key;
            self.view().contains_key(k) && self.view()[k].spec_key_id() == id
        }
    }

    /// Every stored entry with an expiry is registered with the ticker under
    /// its id and expiry.
    pub open spec fn expiry_in_step(&self) -> bool {
        forall|k: Key| #[trigger] self.view().contains_key(k) ==> match self.view()[k].spec_expire_after() {
            Some(e) => self.ticker().has(self.view()[k].spec_key_id(), e),
            None => true,
        }
    }

    /// Everything but the expiry registrations is in step.
    pub open spec fn core_wf(&self) -> bool {
        &&& keys_behave::<Key>()
        &&& self.policy().wf()
        &&& self.ticker().wf()
        &&& self.identity_in_step()
    }

    pub open spec fn wf(&self) -> bool {
        &&& self.core_wf()
        &&& self.expiry_in_step()
    }

    /// Whether an id is held by the admission policy.
    pub open spec fn holds_id(&self, key_id: KeyId) -> bool {
        self.policy().view().contains_key(key_id)
    }

    pub fn new(counters: u64, total_cache_weight: Weight, ttl_shards: usize, now: Millis) -> (r: Self)
        requires
            keys_behave::<Key>(),
            0 < ttl_shards <= MAX_TTL_SHARDS,
            0 < counters <= MAX_COUNTERS,
            total_cache_weight > 0,
        ensures
            r.wf(),
            r.view() == Map::<Key, StoredValue<Value>>::empty(),
            r.policy().view() == Map::<KeyId, KeyWeightEntry<Key>>::empty(),
            r.policy().spec_weight_used() == 0,
            r.policy().spec_total_cache_weight() == total_cache_weight,
            r.policy().within_budget(),
            forall|hash: u64| #[trigger] r.policy().sketch().estimate_spec(hash) == 0,
    {
        CommandExecutor {
            store: Store::new(),
            policy: AdmissionPolicy::new(counters, total_cache_weight),
            ttl_ticker: TtlTicker::new(now, ttl_shards),
        }
    }

    /// What a delete of `key` did: the key's entry, its table entry and the
    /// ticker registration of its expiry are gone, and its weight left the
    /// budget; a missing key changed nothing.
    pub open spec fn deleted(before: Self, after: Self, key: Key, r: CommandStatus) -> bool {
        &&& r == if before.view().contains_key(key) {
            CommandStatus::Accepted
        } else {
            CommandStatus::Rejected
        }
        &&& after.view() == before.view().remove(key)
        &&& r == CommandStatus::Rejected ==> after == before
        &&& r == CommandStatus::Accepted ==> {
            let id = before.view()[key].spec_key_id();
            &&& after.policy().view() == before.policy().view().remove(id)
            &&& after.policy().spec_weight_used() == before.policy().spec_weight_used() - before.policy().view()[id].weight
            &&& forall|vid: KeyId, e: Millis| #[trigger] after.ticker().has(vid, e) <==> before.ticker().has(vid, e) && !(vid
                == id && before.view()[key].spec_expire_after() == Some(e))
        }
    }

    /// Removes the entry of `key` with its table entry and ticker registration.
    pub fn delete(&mut self, key: &Key) -> (r: CommandStatus)
        requires
            old(self).core_wf(),
        ensures
            final(self).core_wf(),
            old(self).expiry_in_step() ==> final(self).expiry_in_step(),
            Self::deleted(*old(self), *final(self), *key, r),
            final(self).policy().sketch() == old(self).policy().sketch(),
            final(self).policy().spec_total_cache_weight() == old(self).policy().spec_total_cache_weight(),
            forall|id: KeyId| #[trigger] final(self).holds_id(id) ==> old(self).holds_id(id),
            forall|vid: KeyId, e: Millis| #[trigger] old(self).ticker().has(vid, e) && !(old(self).view().contains_key(*key)
                && vid == old(self).view()[*key].spec_key_id()) ==> final(self).ticker().has(vid, e),
    {
        let ghost before = *self;
        match self.store.delete(key) {
            None => CommandStatus::Rejected,
            Some((key_id, expiry)) => {
                self.policy.delete(key_id);
                if let Some(e) = expiry {
                    self.ttl_ticker.delete(key_id, e);
                }
                proof {
                    assert forall|k: Key| #[trigger] self.view().contains_key(k) implies {
                        let id = self.view()[k].spec_key_id();
                        self.policy().view().contains_key(id) && self.policy().view()[id].key == k
                    } by {
                        assert(before.view().contains_key(k));
                    }
                    assert forall|id: KeyId| #[trigger] self.policy().view().contains_key(id) implies {
                        let k = self.policy().view()[id].key;
                        self.view().contains_key(k) && self.view()[k].spec_key_id() == id
                    } by {
                        assert(before.policy().view().contains_key(id));
                    }
                    if before.expiry_in_step() {
                        assert forall|k: Key| #[trigger] self.view().contains_key(k) implies match self.view()[k].spec_expire_after() {
                            Some(e) => self.ticker().has(self.view()[k].spec_key_id(), e),
                            None => true,
                        } by {
                            assert(before.view().contains_key(k));
                            assert(self.view()[k] == before.view()[k]);
                        }
                    }
                }
                CommandStatus::Accepted
            },
        }
    }

    /// The weight a write's key gave back to the budget on acceptance: its
    /// previous entry's, unless that entry already left as a victim.
    pub open spec fn replaced_weight(before: Self, key: Key, victims: Seq<KeyWeightEntry<Key>>) -> int {
        if before.view().contains_key(key) && !has_key(victims, key) {
            before.policy().view()[before.view()[key].spec_key_id()].weight as int
        } else {
            0
        }
    }

    /// What a write did, given the residents it evicted. Every victim was a
    /// resident less frequent than the candidate, and only victims (and, on
    /// acceptance, the key's previous entry) left. An accepted write stored
    /// the value under the new id with the write's weight; a rejected one
    /// left the key's entry as it was, unless it was a victim, and was
    /// rejected because the write outweighs the budget or a resident at
    /// least as frequent as the candidate remains.
    pub open spec fn put_outcome(
        before: Self,
        after: Self,
        d: KeyDescription<Key>,
        value: Value,
        expiry: Option<Millis>,
        victims: Seq<KeyWeightEntry<Key>>,
        r: CommandStatus,
    ) -> bool {
        let candidate = before.policy().estimate_of(d.hash);
        &&& r == CommandStatus::Accepted || r == CommandStatus::Rejected
        &&& forall|j: int| 0 <= j < victims.len() ==> before.policy().view().contains_key(#[trigger] victims[j].key_id)
            && before.policy().view()[victims[j].key_id] == victims[j] && before.policy().estimate_of(victims[j].key_hash)
            < candidate
        &&& d.weight > before.policy().spec_total_cache_weight() ==> r == CommandStatus::Rejected && after == before
        &&& d.weight <= before.policy().spec_total_cache_weight() - before.policy().spec_weight_used() ==> r
            == CommandStatus::Accepted && victims.len() == 0
        &&& forall|k: Key| #[trigger] after.view().contains_key(k) && k != d.key ==> before.view().contains_key(k)
            && after.view()[k] == before.view()[k]
        &&& forall|k: Key| #[trigger] before.view().contains_key(k) && k != d.key && !has_key(victims, k)
            ==> after.view().contains_key(k)
        &&& forall|id: KeyId| #[trigger] after.holds_id(id) ==> before.holds_id(id) || id == d.id
        &&& r == CommandStatus::Accepted ==> {
            &&& after.view().contains_key(d.key)
            &&& after.view()[d.key].spec_value() == value
            &&& after.view()[d.key].spec_key_id() == d.id
            &&& after.view()[d.key].spec_expire_after() == expiry
            &&& after.policy().view().contains_key(d.id)
            &&& after.policy().view()[d.id] == (KeyWeightEntry { key_id: d.id, key: d.key, key_hash: d.hash, weight: d.weight })
            &&& after.policy().spec_weight_used() == before.policy().spec_weight_used() - sum_weights(victims)
                - Self::replaced_weight(before, d.key, victims) + d.weight
        }
        &&& r == CommandStatus::Rejected ==> {
            &&& after.policy().spec_weight_used() == before.policy().spec_weight_used() - sum_weights(victims)
            &&& before.view().contains_key(d.key) && !has_key(victims, d.key) ==> after.view().contains_key(d.key)
                && after.view()[d.key] == before.view()[d.key]
            &&& !before.view().contains_key(d.key) ==> !after.view().contains_key(d.key)
            &&& d.weight > before.policy().spec_total_cache_weight() || exists|id: KeyId| #[trigger] after.policy().view().contains_key(
                id,
            ) && before.policy().estimate_of(after.policy().view()[id].key_hash) >= candidate
        }
    }

    /// Admits a write and, when it is accepted, stores it in place of the
    /// key's previous entry. Residents evicted to make room leave the store
    /// and the ticker with it.
    pub fn put(&mut self, description: KeyDescription<Key>, value: Value, expiry: Option<Millis>) -> (r: CommandStatus)
        requires
            old(self).wf(),
            description.weight > 0,
            !old(self).holds_id(description.id),
        ensures
            final(self).wf(),
            exists|victims: Seq<KeyWeightEntry<Key>>| Self::put_outcome(*old(self), *final(self), description, value, expiry, victims, r),
            final(self).policy().sketch() == old(self).policy().sketch(),
            final(self).policy().spec_total_cache_weight() == old(self).policy().spec_total_cache_weight(),
    {
        let ghost before = *self;
        let ghost cleared = *self;
        let ghost d = description;
        let KeyDescription { key, id, hash, weight } = description;
        let key_copy = key.clone();
        assert(vstd::pervasive::strictly_cloned(key, key_copy));
        assert(key_copy == key);
        if weight > self.policy.total_cache_weight() {
            let admission = self.policy.maybe_add(key_copy, id, hash, weight);
            proof {
                assert(Self::put_outcome(before, *self, d, value, expiry, Seq::empty(), admission.status));
            }
            return admission.status;
        }
        let admission = self.policy.maybe_add(key_copy, id, hash, weight);
        let status = admission.status;
        let victims = admission.victims;
        let ghost admitted = self.policy;
        proof {
            assert(!cleared.policy().view().contains_key(id));
        }
        let mut j: usize = 0;
        while j < victims.len()
            invariant
                keys_behave::<Key>(),
                j <= victims@.len(),
                self.policy == admitted,
                self.ticker().wf(),
                cleared.wf(),
                forall|m: int| 0 <= m < victims@.len() ==> cleared.policy().view().contains_key(#[trigger] victims@[m].key_id)
                    && cleared.policy().view()[victims@[m].key_id] == victims@[m],
                forall|k: Key| #[trigger] self.view().contains_key(k) <==> cleared.view().contains_key(k) && !has_key(
                    victims@.take(j as int),
                    k,
                ),
                forall|k: Key| #[trigger] self.view().contains_key(k) ==> self.view()[k] == cleared.view()[k],
                forall|vid: KeyId, e: Millis| #[trigger] cleared.ticker().has(vid, e) && !(exists|m: int| 0 <= m < j
                    && #[trigger] victims@[m].key_id == vid) ==> self.ticker().has(vid, e),
            decreases victims@.len() - j,
        {
            let ghost mid = *self;
            let victim = &victims[j];
            proof {
                assert(victims@.take(j + 1) =~= victims@.take(j as int).push(victims@[j as int]));
            }
            proof {
                let v = victims@[j as int];
                assert(cleared.policy().view().contains_key(v.key_id));
                assert(cleared.policy().view()[v.key_id].key == v.key);
                assert(*victim == v);
            }
            match self.store.delete(&victim.key) {
                Some((vid, Some(e))) => {
                    proof {
                        assert(mid.view().contains_key(victim.key));
                        assert(mid.view()[victim.key] == cleared.view()[victim.key]);
                        assert(vid == victim.key_id);
                    }
                    self.ttl_ticker.delete(vid, e);
                },
                _ => {},
            }
            proof {
                let v = victims@[j as int];
                assert(cleared.policy().view().contains_key(v.key_id));
                assert(cleared.policy().view()[v.key_id].key == v.key);
                assert(cleared.view().contains_key(v.key) && cleared.view()[v.key].spec_key_id() == v.key_id);
                assert(*victim == v);
                assert forall|k: Key| #[trigger] self.view().contains_key(k) <==> cleared.view().contains_key(k) && !has_key(
                    victims@.take(j + 1),
                    k,
                ) by {
                    assert(self.view().contains_key(k) <==> mid.view().contains_key(k) && k != v.key);
                    assert(mid.view().contains_key(k) <==> cleared.view().contains_key(k) && !has_key(victims@.take(j as int), k));
                    assert(victims@.take(j + 1)[j as int] == v);
                    if k == v.key {
                        assert(has_key(victims@.take(j + 1), k));
                    }
                    if has_key(victims@.take(j + 1), k) && !has_key(victims@.take(j as int), k) {
                        let m = choose|m: int| 0 <= m < j + 1 && #[trigger] victims@.take(j + 1)[m].key == k;
                        assert(m == j);
                    }
                    if has_key(victims@.take(j as int), k) {
                        let m = choose|m: int| 0 <= m < j && #[trigger] victims@.take(j as int)[m].key == k;
                        assert(victims@.take(j + 1)[m].key == k);
                    }
                }
                assert forall|k: Key| #[trigger] self.view().contains_key(k) implies self.view()[k] == cleared.view()[k] by {
                    assert(mid.view().contains_key(k));
                }
                assert forall|vid: KeyId, e: Millis| #[trigger] cleared.ticker().has(vid, e) && !(exists|m: int| 0 <= m < j + 1
                    && #[trigger] victims@[m].key_id == vid) implies self.ticker().has(vid, e) by {
                    assert(mid.ticker().has(vid, e));
                    assert(vid != v.key_id);
                }
            }
            j = j + 1;
        }
        proof {
            assert(victims@.take(victims@.len() as int) =~= victims@);
            assert forall|k: Key| #[trigger] self.view().contains_key(k) implies {
                let kid = self.view()[k].spec_key_id();
                &&& self.policy().view().contains_key(kid) || status == CommandStatus::Accepted && kid == id
                &&& self.policy().view().contains_key(kid) ==> self.policy().view()[kid].key == k
                &&& kid != id
            } by {
                let kid = cleared.view()[k].spec_key_id();
                assert(cleared.policy().view().contains_key(kid) && cleared.policy().view()[kid].key == k);
                lemma_ids_of(victims@, kid);
                if ids_of(victims@).contains(kid) {
                    let m = choose|m: int| 0 <= m < victims@.len() && #[trigger] victims@[m].key_id == kid;
                    assert(victims@[m].key == k);
                    assert(has_key(victims@, k));
                }
            }
            assert forall|vid: KeyId| #[trigger] self.policy().view().contains_key(vid) && vid != id implies {
                let k = self.policy().view()[vid].key;
                self.view().contains_key(k) && self.view()[k].spec_key_id() == vid
            } by {
                lemma_ids_of(victims@, vid);
                assert(cleared.policy().view().contains_key(vid) && !ids_of(victims@).contains(vid));
                assert(self.policy().view()[vid] == cleared.policy().view()[vid]);
                let k = cleared.policy().view()[vid].key;
                assert(cleared.view().contains_key(k) && cleared.view()[k].spec_key_id() == vid);
                assert(self.view().contains_key(k) <==> cleared.view().contains_key(k) && !has_key(victims@, k));
                if has_key(victims@, k) {
                    let m = choose|m: int| 0 <= m < victims@.len() && #[trigger] victims@[m].key == k;
                    assert(cleared.view()[victims@[m].key].spec_key_id() == victims@[m].key_id);
                    assert(victims@[m].key_id == vid);
                }
            }
            assert forall|k: Key| #[trigger] self.view().contains_key(k) implies match self.view()[k].spec_expire_after() {
                Some(e) => self.ticker().has(self.view()[k].spec_key_id(), e),
                None => true,
            } by {
                let kid = cleared.view()[k].spec_key_id();
                assert(cleared.policy().view()[kid].key == k);
                if let Some(e) = cleared.view()[k].spec_expire_after() {
                    assert(cleared.ticker().has(kid, e));
                    if exists|m: int| 0 <= m < victims@.len() && #[trigger] victims@[m].key_id == kid {
                        let m = choose|m: int| 0 <= m < victims@.len() && #[trigger] victims@[m].key_id == kid;
                        assert(victims@[m].key == k);
                        assert(has_key(victims@, k));
                    }
                }
            }
        }
        let ghost pre_store = *self;
        if status == CommandStatus::Accepted {
            let stored = StoredValue::never_expiring(value, id).with_expiry(expiry);
            let replaced = self.store.put(key, stored);
            let ghost post_store = *self;
            let mut old_id: Option<KeyId> = None;
            if let Some(previous) = replaced {
                old_id = Some(previous.key_id());
                proof {
                    assert(pre_store.view().contains_key(key));
                    assert(pre_store.policy().view().contains_key(previous.spec_key_id()));
                    assert(previous.spec_key_id() != id);
                }
                self.policy.delete(previous.key_id());
                if let Some(e) = previous.expire_after() {
                    self.ttl_ticker.delete(previous.key_id(), e);
                }
            }
            if let Some(e) = expiry {
                self.ttl_ticker.put(id, e);
            }
            proof {
                let oid = if old_id is Some { old_id->0 } else { id };
                assert(old_id is Some ==> pre_store.policy().view()[oid].key == key);
                assert forall|k: Key| #[trigger] self.view().contains_key(k) implies {
                    let kid = self.view()[k].spec_key_id();
                    self.policy().view().contains_key(kid) && self.policy().view()[kid].key == k
                } by {
                    if k != key {
                        assert(pre_store.view().contains_key(k));
                        let kid = pre_store.view()[k].spec_key_id();
                        assert(pre_store.policy().view()[kid].key == k);
                    }
                }
                assert forall|vid: KeyId| #[trigger] self.policy().view().contains_key(vid) implies {
                    let k = self.policy().view()[vid].key;
                    self.view().contains_key(k) && self.view()[k].spec_key_id() == vid
                } by {
                    if vid != id {
                        let k = self.policy().view()[vid].key;
                        assert(pre_store.policy().view().contains_key(vid));
                        assert(pre_store.view().contains_key(k));
                        if k == key {
                            assert(pre_store.view()[key].spec_key_id() == vid);
                            assert(old_id is Some);
                        }
                    }
                }
                assert forall|k: Key| #[trigger] self.view().contains_key(k) implies match self.view()[k].spec_expire_after() {
                    Some(e) => self.ticker().has(self.view()[k].spec_key_id(), e),
                    None => true,
                } by {
                    if k != key {
                        assert(pre_store.view().contains_key(k));
                        let kid = pre_store.view()[k].spec_key_id();
                        assert(pre_store.policy().view()[kid].key == k);
                    }
                }
                assert(Self::replaced_weight(before, key, victims@) == if old_id is Some {
                    pre_store.policy().view()[oid].weight as int
                } else {
                    0int
                }) by {
                    if before.view().contains_key(key) && !has_key(victims@, key) {
                        assert(pre_store.view().contains_key(key));
                        assert(pre_store.view()[key] == before.view()[key]);
                    }
                    if old_id is Some {
                        assert(before.view().contains_key(key));
                        if has_key(victims@, key) {
                            let m = choose|m: int| 0 <= m < victims@.len() && #[trigger] victims@[m].key == key;
                            assert(!pre_store.view().contains_key(victims@[m].key));
                        }
                        assert(pre_store.view()[key] == before.view()[key]);
                        assert(before.policy().view()[oid] == pre_store.policy().view()[oid]);
                    }
                }
            }
        } else {
            proof {
                assert forall|k: Key| #[trigger] self.view().contains_key(k) implies {
                    let kid = self.view()[k].spec_key_id();
                    self.policy().view().contains_key(kid) && self.policy().view()[kid].key == k
                } by {
                }
                assert forall|vid: KeyId| #[trigger] self.policy().view().contains_key(vid) implies {
                    let k = self.policy().view()[vid].key;
                    self.view().contains_key(k) && self.view()[k].spec_key_id() == vid
                } by {
                }
                if before.view().contains_key(key) && !has_key(victims@, key) {
                    assert(self.view().contains_key(key));
                }
            }
        }
        proof {
            assert forall|k: Key| #[trigger] self.view().contains_key(k) && k != key implies before.view().contains_key(k)
                && self.view()[k] == before.view()[k] by {
                assert(pre_store.view().contains_key(k));
            }
            assert forall|k: Key| #[trigger] before.view().contains_key(k) && k != key && !has_key(victims@, k) implies self.view().contains_key(
                k,
            ) by {
                assert(pre_store.view().contains_key(k));
            }
            assert forall|vid: KeyId| #[trigger] self.holds_id(vid) implies before.holds_id(vid) || vid == id by {
                assert(pre_store.policy().view().contains_key(vid));
                lemma_ids_of(victims@, vid);
            }
            assert(Self::put_outcome(before, *self, d, value, expiry, victims@, status));
        }
        status
    }

    /// What a weight update did: a held id whose new weight still fits the
    /// budget gets it, and nothing else changes; otherwise nothing changes.
    pub open spec fn weight_updated(before: Self, after: Self, key_id: KeyId, weight: Weight, r: CommandStatus) -> bool {
        &&& r == CommandStatus::Accepted || r == CommandStatus::Rejected
        &&& r == CommandStatus::Accepted <==> before.holds_id(key_id) && before.policy().spec_weight_used()
            - before.policy().view()[key_id].weight + weight <= before.policy().spec_total_cache_weight()
        &&& r == CommandStatus::Accepted ==> {
            &&& after.policy().view() == before.policy().view().insert(
                key_id,
                KeyWeightEntry { weight, ..before.policy().view()[key_id] },
            )
            &&& after.policy().spec_weight_used() == before.policy().spec_weight_used()
                - before.policy().view()[key_id].weight + weight
            &&& after.store() == before.store()
            &&& after.ticker() == before.ticker()
        }
        &&& r == CommandStatus::Rejected ==> after == before
    }

    /// Changes the weight of a held id, when the new weight still fits the
    /// budget.
    pub fn update_weight(&mut self, key_id: KeyId, weight: Weight) -> (r: CommandStatus)
        requires
            old(self).wf(),
            weight > 0,
        ensures
            final(self).wf(),
            final(self).view() == old(self).view(),
            Self::weight_updated(*old(self), *final(self), key_id, weight, r),
            final(self).policy().sketch() == old(self).policy().sketch(),
            final(self).policy().spec_total_cache_weight() == old(self).policy().spec_total_cache_weight(),
            forall|id: KeyId| #[trigger] final(self).holds_id(id) == old(self).holds_id(id),
    {
        let ghost before = *self;
        let r = self.policy.update(key_id, weight);
        proof {
            assert forall|k: Key| #[trigger] self.view().contains_key(k) implies {
                let id = self.view()[k].spec_key_id();
                self.policy().view().contains_key(id) && self.policy().view()[id].key == k
            } by {
                assert(before.view().contains_key(k));
            }
            assert forall|id: KeyId| #[trigger] self.policy().view().contains_key(id) implies {
                let k = self.policy().view()[id].key;
                self.view().contains_key(k) && self.view()[k].spec_key_id() == id
            } by {
                assert(before.policy().view().contains_key(id));
            }
            assert forall|id: KeyId| #[trigger] self.holds_id(id) == before.holds_id(id) by {
                if id == key_id && r == CommandStatus::Accepted {
                    assert(before.holds_id(id));
                }
            }
        }
        r
    }

    /// The ticker after an id's expiry moved from `from` to `to`: unchanged
    /// when they are equal; else the old registration is gone and the new
    /// one is there.
    pub open spec fn ticker_moved(before: TtlTicker, after: TtlTicker, key_id: KeyId, from: Option<Millis>, to: Option<Millis>) -> bool {
        if from == to {
            after == before
        } else {
            forall|vid: KeyId, e: Millis| #[trigger] after.has(vid, e) <==> (before.has(vid, e) && !(vid == key_id && from == Some(
                e,
            ))) || (vid == key_id && to == Some(e))
        }
    }

    /// Changes the value and/or expiry of a present key in place, keeping
    /// the ticker in step with the new expiry.
    pub fn update(
        &mut self,
        key: Key,
        value: Option<Value>,
        time_to_live: Option<Millis>,
        remove_time_to_live: bool,
        now: Millis,
    ) -> (r: UpdateResponse)
        requires
            old(self).wf(),
            old(self).view().contains_key(key),
            time_to_live is Some ==> now + time_to_live->0 <= u64::MAX,
        ensures
            final(self).wf(),
            ({
                let current = old(self).view()[key];
                let expiry = updated_expiry(current.spec_expire_after(), time_to_live, remove_time_to_live, now);
                &&& r.key_id == current.spec_key_id()
                &&& final(self).view().dom() == old(self).view().dom()
                &&& forall|k: Key| k != key && #[trigger] old(self).view().contains_key(k) ==> final(self).view()[k]
                    == old(self).view()[k]
                &&& final(self).view()[key].spec_key_id() == current.spec_key_id()
                &&& final(self).view()[key].spec_expire_after() == expiry
                &&& final(self).view()[key].spec_value() == match value {
                    Some(v) => v,
                    None => current.spec_value(),
                }
                &&& r.type_of_expiry_update == expiry_transition(current.spec_key_id(), current.spec_expire_after(), expiry)
                &&& Self::ticker_moved(old(self).ticker(), final(self).ticker(), current.spec_key_id(), current.spec_expire_after(), expiry)
            }),
            final(self).policy() == old(self).policy(),
    {
        let ghost before = *self;
        let r = self.store.update(key, value, time_to_live, remove_time_to_live, now);
        match r.type_of_expiry_update {
            TypeOfExpiryUpdate::Added(id, e) => self.ttl_ticker.put(id, e),
            TypeOfExpiryUpdate::Deleted(id, e) => self.ttl_ticker.delete(id, e),
            TypeOfExpiryUpdate::Updated(id, old_expiry, new_expiry) => self.ttl_ticker.update(id, old_expiry, new_expiry),
            TypeOfExpiryUpdate::Nothing => {},
        }
        proof {
            let kid = before.view()[key].spec_key_id();
            assert(before.policy().view().contains_key(kid) && before.policy().view()[kid].key == key);
            assert forall|k: Key| #[trigger] self.view().contains_key(k) implies {
                let id = self.view()[k].spec_key_id();
                self.policy().view().contains_key(id) && self.policy().view()[id].key == k
            } by {
                assert(before.view().contains_key(k));
            }
            assert forall|id: KeyId| #[trigger] self.policy().view().contains_key(id) implies {
                let k = self.policy().view()[id].key;
                self.view().contains_key(k) && self.view()[k].spec_key_id() == id
            } by {
                assert(before.policy().view().contains_key(id));
                let k = self.policy().view()[id].key;
                assert(before.view().contains_key(k));
            }
            assert forall|k: Key| #[trigger] self.view().contains_key(k) implies match self.view()[k].spec_expire_after() {
                Some(e) => self.ticker().has(self.view()[k].spec_key_id(), e),
                None => true,
            } by {
                assert(before.view().contains_key(k));
                if k != key {
                    let id = before.view()[k].spec_key_id();
                    assert(before.policy().view().contains_key(id) && before.policy().view()[id].key == k);
                    assert(id != kid);
                }
            }
        }
        r
    }

    /// An entry a scan at `now` evicts: it expired by then, in a second the
    /// ticker has not finished scanning.
    pub open spec fn due(stored: StoredValue<Value>, ticker: TtlTicker, now: Millis) -> bool {
        match stored.spec_expire_after() {
            Some(e) => e <= now && ticker.spec_last_scanned() <= second_of(e),
            None => false,
        }
    }

    /// Evicts what is due at `now`: every registration the ticker drains
    /// whose entry still carries that expiry leaves the store and the table.
    pub fn expire(&mut self, now: Millis)
        requires
            old(self).wf(),
        ensures
            final(self).wf(),
            forall|k: Key| #[trigger] final(self).view().contains_key(k) ==> old(self).view().contains_key(k)
                && final(self).view()[k] == old(self).view()[k],
            forall|k: Key| #[trigger] old(self).view().contains_key(k) && !final(self).view().contains_key(k) ==> {
                let e = old(self).view()[k].spec_expire_after();
                e is Some && e->0 <= now
            },
            forall|k: Key| #[trigger] old(self).view().contains_key(k) && Self::due(old(self).view()[k], old(self).ticker(), now)
                ==> !final(self).view().contains_key(k),
            final(self).policy().sketch() == old(self).policy().sketch(),
            final(self).policy().spec_total_cache_weight() == old(self).policy().spec_total_cache_weight(),
            final(self).policy().spec_weight_used() <= old(self).policy().spec_weight_used(),
            forall|id: KeyId| #[trigger] final(self).holds_id(id) ==> old(self).holds_id(id) && final(self).policy().view()[id]
                == old(self).policy().view()[id],
    {
        let ghost before = *self;
        let drained = self.ttl_ticker.expire(now);
        proof {
            assert(drained@.skip(0) =~= drained@);
            assert forall|k: Key| #[trigger] self.view().contains_key(k) implies match self.view()[k].spec_expire_after() {
                Some(e) => self.ticker().has(self.view()[k].spec_key_id(), e) || drained@.skip(0).contains(
                    TtlEntry { key_id: self.view()[k].spec_key_id(), expire_after: e },
                ),
                None => true,
            } by {
                if let Some(e) = self.view()[k].spec_expire_after() {
                    assert(before.ticker().has(self.view()[k].spec_key_id(), e));
                }
            }
            assert forall|t: TtlEntry| #[trigger] drained@.contains(t) implies t.expire_after <= now by {
            }
            assert forall|k: Key| #[trigger] before.view().contains_key(k) && Self::due(before.view()[k], before.ticker(), now)
                implies !self.view().contains_key(k) || drained@.skip(0).contains(
                TtlEntry { key_id: before.view()[k].spec_key_id(), expire_after: before.view()[k].spec_expire_after()->0 },
            ) by {
                let e = before.view()[k].spec_expire_after()->0;
                assert(before.ticker().has(before.view()[k].spec_key_id(), e));
            }
            assert forall|id: KeyId| #[trigger] self.policy().view().contains_key(id) implies {
                let k = self.policy().view()[id].key;
                self.view().contains_key(k) && self.view()[k].spec_key_id() == id
            } by {
            }
        }
        let mut j: usize = 0;
        while j < drained.len()
            invariant
                self.core_wf(),
                j <= drained@.len(),
                forall|t: TtlEntry| #[trigger] drained@.contains(t) ==> t.expire_after <= now,
                forall|k: Key| #[trigger] self.view().contains_key(k) ==> match self.view()[k].spec_expire_after() {
                    Some(e) => self.ticker().has(self.view()[k].spec_key_id(), e) || drained@.skip(j as int).contains(
                        TtlEntry { key_id: self.view()[k].spec_key_id(), expire_after: e },
                    ),
                    None => true,
                },
                forall|k: Key| #[trigger] self.view().contains_key(k) ==> before.view().contains_key(k)
                    && self.view()[k] == before.view()[k],
                forall|k: Key| #[trigger] before.view().contains_key(k) && !self.view().contains_key(k) ==> {
                    let e = before.view()[k].spec_expire_after();
                    e is Some && e->0 <= now
                },
                forall|k: Key| #[trigger] before.view().contains_key(k) && Self::due(before.view()[k], before.ticker(), now)
                    ==> !self.view().contains_key(k) || drained@.skip(j as int).contains(
                    TtlEntry { key_id: before.view()[k].spec_key_id(), expire_after: before.view()[k].spec_expire_after()->0 },
                ),
                self.policy().sketch() == before.policy().sketch(),
                self.policy().spec_total_cache_weight() == before.policy().spec_total_cache_weight(),
                self.policy().spec_weight_used() <= before.policy().spec_weight_used(),
                forall|id: KeyId| #[trigger] self.holds_id(id) ==> before.holds_id(id) && self.policy().view()[id]
                    == before.policy().view()[id],
            decreases drained@.len() - j,
        {
            let t = drained[j];
            let ghost mid = *self;
            proof {
                assert(drained@.contains(t));
                assert(drained@.skip(j as int) =~= seq![t] + drained@.skip(j + 1));
            }
            let mut target: Option<Key> = None;
            if let Some(e) = self.policy.entry(t.key_id) {
                if let Some(stored) = self.store.entry(&e.key) {
                    if stored.key_id() == t.key_id && stored.expire_after() == Some(t.expire_after) {
                        target = Some(e.key.clone());
                    }
                }
            }
            match target {
                Some(key) => {
                    proof {
                        assert(vstd::pervasive::strictly_cloned(self.policy().view()[t.key_id].key, key));
                        self.policy().lemma_view_weights_positive();
                    }
                    self.delete(&key);
                },
                None => {},
            }
            proof {
                assert forall|k: Key| #[trigger] self.view().contains_key(k) implies match self.view()[k].spec_expire_after() {
                    Some(e) => self.ticker().has(self.view()[k].spec_key_id(), e) || drained@.skip(j + 1).contains(
                        TtlEntry { key_id: self.view()[k].spec_key_id(), expire_after: e },
                    ),
                    None => true,
                } by {
                    assert(mid.view().contains_key(k));
                    assert(self.view()[k] == mid.view()[k]);
                    let id = mid.view()[k].spec_key_id();
                    assert(mid.policy().view().contains_key(id) && mid.policy().view()[id].key == k);
                    if let Some(e) = mid.view()[k].spec_expire_after() {
                        let u = TtlEntry { key_id: id, expire_after: e };
                        vstd::seq_lib::lemma_seq_concat_contains_all_elements(seq![t], drained@.skip(j + 1), u);
                        if u == t {
                            assert(target is Some);
                        }
                    }
                }
                assert forall|k: Key| #[trigger] before.view().contains_key(k) && Self::due(before.view()[k], before.ticker(), now)
                    implies !self.view().contains_key(k) || drained@.skip(j + 1).contains(
                    TtlEntry { key_id: before.view()[k].spec_key_id(), expire_after: before.view()[k].spec_expire_after()->0 },
                ) by {
                    let u = TtlEntry { key_id: before.view()[k].spec_key_id(), expire_after: before.view()[k].spec_expire_after()->0 };
                    vstd::seq_lib::lemma_seq_concat_contains_all_elements(seq![t], drained@.skip(j + 1), u);
                    if mid.view().contains_key(k) && u == t {
                        assert(mid.view()[k] == before.view()[k]);
                        let id = mid.view()[k].spec_key_id();
                        assert(mid.policy().view().contains_key(id) && mid.policy().view()[id].key == k);
                        assert(target is Some);
                    }
                    if self.view().contains_key(k) {
                        assert(mid.view().contains_key(k));
                    }
                    assert(seq![t].contains(u) ==> u == t) by {
                        if seq![t].contains(u) {
                            let i = choose|i: int| 0 <= i < 1 && seq![t][i] == u;
                        }
                    }
                }
                assert forall|k: Key| #[trigger] before.view().contains_key(k) && !self.view().contains_key(k) implies {
                    let e = before.view()[k].spec_expire_after();
                    e is Some && e->0 <= now
                } by {
                    if mid.view().contains_key(k) {
                        assert(target is Some);
                        assert(mid.view()[k].spec_expire_after() == Some(t.expire_after));
                    }
                }
            }
            j = j + 1;
        }
        proof {
            assert(drained@.skip(j as int) =~= Seq::<TtlEntry>::empty());
            assert forall|k: Key| #[trigger] self.view().contains_key(k) implies match self.view()[k].spec_expire_after() {
                Some(e) => self.ticker().has(self.view()[k].spec_key_id(), e),
                None => true,
            } by {
            }
            assert forall|k: Key| #[trigger] before.view().contains_key(k) && Self::due(before.view()[k], before.ticker(), now)
                implies !self.view().contains_key(k) by {
            }
        }
    }

    /// Feeds observed accesses to the admission policy's sketch.
    pub fn record_accesses(&mut self, hashes: &Vec<u64>)
        requires
            old(self).wf(),
        ensures
            final(self).wf(),
            final(self).view() == old(self).view(),
            final(self).policy().view() == old(self).policy().view(),
            final(self).policy().spec_weight_used() == old(self).policy().spec_weight_used(),
            final(self).policy().spec_total_cache_weight() == old(self).policy().spec_total_cache_weight(),
            crate::policy::absorbed(old(self).policy().sketch(), final(self).policy().sketch(), hashes@),
    {
        let ghost before = *self;
        self.policy.accept(hashes);
        proof {
            assert forall|k: Key| #[trigger] self.view().contains_key(k) implies {
                let id = self.view()[k].spec_key_id();
                self.policy().view().contains_key(id) && self.policy().view()[id].key == k
            } by {
                assert(before.view().contains_key(k));
            }
            assert forall|id: KeyId| #[trigger] self.policy().view().contains_key(id) implies {
                let k = self.policy().view()[id].key;
                self.view().contains_key(k) && self.view()[k].spec_key_id() == id
            } by {
                assert(before.policy().view().contains_key(id));
            }
        }
    }

    /// Drops every entry, table entry and ticker registration.
    pub fn clear(&mut self)
        requires
            old(self).wf(),
        ensures
            final(self).wf(),
            final(self).view() == Map::<Key, StoredValue<Value>>::empty(),
            final(self).policy().view() == Map::<KeyId, KeyWeightEntry<Key>>::empty(),
            final(self).policy().spec_weight_used() == 0,
            final(self).policy().spec_total_cache_weight() == old(self).policy().spec_total_cache_weight(),
            final(self).policy().within_budget(),
    {
        self.store.clear();
        self.policy.clear();
        self.ttl_ticker.clear();
    }

    /// The entry of `key`, if it is alive at `now`.
    pub fn get_ref(&self, key: &Key, now: Millis) -> (r: Option<&StoredValue<Value>>)
        requires
            self.wf(),
        ensures
            r == if self.view().contains_key(*key) && self.view()[*key].alive_at(now) {
                Some(&self.view()[*key])
            } else {
                None::<&StoredValue<Value>>
            },
    {
        self.store.get_ref(key, now)
    }

    /// The entry of `key`, alive or not.
    pub fn entry(&self, key: &Key) -> (r: Option<&StoredValue<Value>>)
        requires
            self.wf(),
        ensures
            r == if self.view().contains_key(*key) {
                Some(&self.view()[*key])
            } else {
                None::<&StoredValue<Value>>
            },
    {
        self.store.entry(key)
    }

    pub fn contains_key(&self, key: &Key) -> (r: bool)
        requires
            self.wf(),
        ensures
            r == self.view().contains_key(*key),
    {
        self.store.contains(key)
    }

    pub fn policy_ref(&self) -> (r: &AdmissionPolicy<Key>)
        ensures
            *r == self.policy(),
    {
        &self.policy
    }

    pub fn ticker_ref(&self) -> (r: &TtlTicker)
        ensures
            *r == self.ticker(),
    {
        &self.ttl_ticker
    }

    /// Whether a command may be applied: writes carry a positive weight and
    /// a fresh id.
    pub open spec fn command_ok(&self, command: CommandType<Key, Value>) -> bool {
        match command {
            CommandType::Put(d, _) => d.weight > 0 && !self.holds_id(d.id),
            CommandType::PutWithTTL(d, _, _) => d.weight > 0 && !self.holds_id(d.id),
            CommandType::Delete(_) => true,
            CommandType::UpdateWeight(_, w) => w > 0,
        }
    }

    /// Applies one command, as the single writer does.
    pub fn apply(&mut self, command: CommandType<Key, Value>, now: Millis) -> (r: CommandStatus)
        requires
            old(self).wf(),
            old(self).command_ok(command),
        ensures
            final(self).wf(),
            r == CommandStatus::Accepted || r == CommandStatus::Rejected,
            match command {
                CommandType::Put(d, v) => exists|victims: Seq<KeyWeightEntry<Key>>| Self::put_outcome(
                    *old(self),
                    *final(self),
                    d,
                    v,
                    None::<Millis>,
                    victims,
                    r,
                ),
                CommandType::PutWithTTL(d, v, ttl) => exists|victims: Seq<KeyWeightEntry<Key>>| Self::put_outcome(
                    *old(self),
                    *final(self),
                    d,
                    v,
                    Some(expiry_after(now, ttl)),
                    victims,
                    r,
                ),
                CommandType::Delete(k) => Self::deleted(*old(self), *final(self), k, r),
                CommandType::UpdateWeight(id, w) => Self::weight_updated(*old(self), *final(self), id, w, r),
            },
            final(self).policy().spec_total_cache_weight() == old(self).policy().spec_total_cache_weight(),
            final(self).policy().sketch() == old(self).policy().sketch(),
            forall|id: KeyId| #[trigger] final(self).holds_id(id) ==> old(self).holds_id(id) || match command {
                CommandType::Put(d, _) => id == d.id,
                CommandType::PutWithTTL(d, _, _) => id == d.id,
                _ => false,
            },
    {
        match command {
            CommandType::Put(description, value) => {
                let ghost before = *self;
                let r = self.put(description, value, None);
                proof {
                    let victims = choose|victims: Seq<KeyWeightEntry<Key>>| Self::put_outcome(
                        before,
                        *self,
                        description,
                        value,
                        None,
                        victims,
                        r,
                    );
                    assert(Self::put_outcome(before, *self, description, value, None::<Millis>, victims, r));
                }
                r
            },
            CommandType::PutWithTTL(description, value, time_to_live) => {
                let expiry = if time_to_live > u64::MAX - now {
                    u64::MAX
                } else {
                    now + time_to_live
                };
                let ghost before = *self;
                let r = self.put(description, value, Some(expiry));
                proof {
                    assert(expiry == expiry_after(now, time_to_live));
                    let victims = choose|victims: Seq<KeyWeightEntry<Key>>| Self::put_outcome(
                        before,
                        *self,
                        description,
                        value,
                        Some(expiry),
                        victims,
                        r,
                    );
                    assert(Self::put_outcome(before, *self, description, value, Some(expiry_after(now, time_to_live)), victims, r));
                }
                r
            },
            CommandType::Delete(key) => self.delete(&key),
            CommandType::UpdateWeight(key_id, weight) => self.update_weight(key_id, weight),
        }
    }
}

} // verus!
