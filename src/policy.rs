use vstd::prelude::*;

use crate::frequency::{FrequencySketch, MAX_COUNTERS, door_index, row_index};
use crate::table::{
    KeyWeightEntry, lemma_push, lemma_sum_bounds, lemma_table_view_index, lemma_unique_remove, lemma_update,
    positive_weights,
    sum_weights, table_view, unique_ids,
};
use crate::types::{CommandStatus, KeyId, Weight};

verus! {

/// How many residents are looked at when choosing a victim.
pub const SAMPLE_SIZE: usize = 5;

/// Sketch increments between two agings, per counter.
pub const SAMPLES_PER_COUNTER: u64 = 10;

/// Decides which keys are held: a TinyLFU gate over a weight-bounded table
/// of residents, evicting sampled least-frequent residents to make room.
pub struct AdmissionPolicy<Key> {
    sketch: FrequencySketch,
    table: Vec<KeyWeightEntry<Key>>,
    weight_used: Weight,
    total_cache_weight: Weight,
}

/// The ids of a run of entries.
pub open spec fn ids_of<Key>(entries: Seq<KeyWeightEntry<Key>>) -> Set<KeyId> {
    entries.map_values(|e: KeyWeightEntry<Key>| e.key_id).to_set()
}

/// One sighting absorbed by a sketch: the increment, then the aging if it
/// became due.
pub open spec fn absorbed_one(before: FrequencySketch, after: FrequencySketch, hash: u64) -> bool {
    exists|mid: FrequencySketch|
        FrequencySketch::incremented(before, mid, hash) && if mid.spec_samples() >= mid.spec_sample_size() {
            FrequencySketch::halved(mid, after)
        } else {
            after == mid
        }
}

/// A batch of sightings absorbed in order.
pub open spec fn absorbed(before: FrequencySketch, after: FrequencySketch, hashes: Seq<u64>) -> bool {
    exists|states: Seq<FrequencySketch>|
        states.len() == hashes.len() + 1 && states[0] == before && states.last() == after && forall|k: int|
            0 <= k < hashes.len() ==> absorbed_one(#[trigger] states[k], states[k + 1], hashes[k])
}

/// What `maybe_add` did.
pub struct Admission<Key> {
    pub status: CommandStatus,
    /// Residents evicted to make room, in the order they left.
    pub victims: Vec<KeyWeightEntry<Key>>,
}

impl<Key> AdmissionPolicy<Key> {
    pub closed spec fn entries(&self) -> Seq<KeyWeightEntry<Key>> {
        self.table@
    }

    /// Residents by id.
    pub open spec fn view(&self) -> Map<KeyId, KeyWeightEntry<Key>> {
        table_view(self.entries())
    }

    pub closed spec fn spec_weight_used(&self) -> Weight {
        self.weight_used
    }

    pub closed spec fn spec_total_cache_weight(&self) -> Weight {
        self.total_cache_weight
    }

    pub closed spec fn sketch(&self) -> FrequencySketch {
        self.sketch
    }

    pub open spec fn wf(&self) -> bool {
        &&& self.sketch().wf()
        &&& unique_ids(self.entries())
        &&& positive_weights(self.entries())
        &&& self.spec_weight_used() == sum_weights(self.entries())
        &&& self.spec_total_cache_weight() > 0
        &&& self.within_budget()
    }

    /// The weight bound: what residents weigh together fits the budget.
    pub open spec fn within_budget(&self) -> bool {
        self.spec_weight_used() <= self.spec_total_cache_weight()
    }

    pub open spec fn estimate_of(&self, hash: u64) -> nat {
        self.sketch().estimate_spec(hash)
    }

    pub fn new(counters: u64, total_cache_weight: Weight) -> (r: Self)
        requires
            0 < counters <= MAX_COUNTERS,
            total_cache_weight > 0,
        ensures
            r.wf(),
            r.view() == Map::<KeyId, KeyWeightEntry<Key>>::empty(),
            r.spec_weight_used() == 0,
            r.spec_total_cache_weight() == total_cache_weight,
            r.within_budget(),
            forall|hash: u64| #[trigger] r.sketch().estimate_spec(hash) == 0,
    {
        let sketch = FrequencySketch::new(counters, counters * SAMPLES_PER_COUNTER);
        assert forall|hash: u64| #[trigger] sketch.estimate_spec(hash) == 0 by {
            let w = sketch.spec_width();
            assert(sketch.counter(0, row_index(hash, 0, w)) == 0);
            assert(sketch.counter(1, row_index(hash, 1, w)) == 0);
            assert(sketch.counter(2, row_index(hash, 2, w)) == 0);
            assert(sketch.counter(3, row_index(hash, 3, w)) == 0);
            assert(!sketch.door(door_index(hash, w)));
        }
        let r = AdmissionPolicy { sketch, table: Vec::new(), weight_used: 0, total_cache_weight };
        assert(r.view() =~= Map::<KeyId, KeyWeightEntry<Key>>::empty());
        r
    }

    /// Every resident weighs something.
    pub proof fn lemma_view_weights_positive(&self)
        requires
            self.wf(),
        ensures
            forall|id: KeyId| #[trigger] self.view().contains_key(id) ==> self.view()[id].weight > 0,
    {
        lemma_table_view_index(self.entries());
        assert forall|id: KeyId| #[trigger] self.view().contains_key(id) implies self.view()[id].weight > 0 by {
            let i = choose|i: int| 0 <= i < self.entries().len() && self.entries()[i].key_id == id;
            assert(self.view()[self.entries()[i].key_id] == self.entries()[i]);
        }
    }

    pub fn weight_used(&self) -> (r: Weight)
        ensures
            r == self.spec_weight_used(),
    {
        self.weight_used
    }

    pub fn total_cache_weight(&self) -> (r: Weight)
        ensures
            r == self.spec_total_cache_weight(),
    {
        self.total_cache_weight
    }

    /// How often `hash` was seen recently.
    pub fn estimate(&self, hash: u64) -> (r: u8)
        requires
            self.wf(),
        ensures
            r as nat == self.estimate_of(hash),
    {
        self.sketch.estimate(hash)
    }

    fn position_of(&self, key_id: KeyId) -> (r: Option<usize>)
        requires
            self.wf(),
        ensures
            match r {
                Some(i) => i < self.entries().len() && self.entries()[i as int].key_id == key_id,
                None => !self.view().contains_key(key_id),
            },
    {
        proof { lemma_table_view_index(self.entries()); }
        let mut i: usize = 0;
        while i < self.table.len()
            invariant
                i <= self.table@.len(),
                forall|j: int| 0 <= j < i ==> #[trigger] self.table@[j].key_id != key_id,
            decreases self.table@.len() - i,
        {
            if self.table[i].key_id == key_id {
                return Some(i);
            }
            i = i + 1;
        }
        None
    }

    /// The resident with id `key_id`.
    pub fn entry(&self, key_id: KeyId) -> (r: Option<&KeyWeightEntry<Key>>)
        requires
            self.wf(),
        ensures
            r == if self.view().contains_key(key_id) {
                Some(&self.view()[key_id])
            } else {
                None::<&KeyWeightEntry<Key>>
            },
    {
        proof { lemma_table_view_index(self.entries()); }
        match self.position_of(key_id) {
            Some(i) => Some(&self.table[i]),
            None => None,
        }
    }

    pub fn contains(&self, key_id: KeyId) -> (r: bool)
        requires
            self.wf(),
        ensures
            r == self.view().contains_key(key_id),
    {
        proof { lemma_table_view_index(self.entries()); }
        self.position_of(key_id).is_some()
    }

    pub fn weight_of(&self, key_id: KeyId) -> (r: Option<Weight>)
        requires
            self.wf(),
        ensures
            r == if self.view().contains_key(key_id) {
                Some(self.view()[key_id].weight)
            } else {
                None::<Weight>
            },
    {
        proof { lemma_table_view_index(self.entries()); }
        match self.position_of(key_id) {
            Some(i) => Some(self.table[i].weight),
            None => None,
        }
    }

    /// Removes a resident, returning it.
    pub fn delete(&mut self, key_id: KeyId) -> (r: Option<KeyWeightEntry<Key>>)
        requires
            old(self).wf(),
        ensures
            final(self).wf(),
            final(self).view() == old(self).view().remove(key_id),
            final(self).sketch() == old(self).sketch(),
            final(self).spec_total_cache_weight() == old(self).spec_total_cache_weight(),
            match r {
                Some(e) => old(self).view().contains_key(key_id) && e == old(self).view()[key_id]
                    && final(self).spec_weight_used() == old(self).spec_weight_used() - e.weight,
                None => !old(self).view().contains_key(key_id) && *final(self) == *old(self),
            },
            old(self).within_budget() ==> final(self).within_budget(),
    {
        match self.position_of(key_id) {
            Some(i) => {
                proof {
                    lemma_table_view_index(self.entries());
                    lemma_unique_remove(self.entries(), i as int);
                    lemma_sum_bounds(self.entries());
                }
                let e = self.table.remove(i);
                self.weight_used = self.weight_used - e.weight;
                proof { lemma_sum_bounds(self.entries()); }
                Some(e)
            },
            None => {
                proof {
                    assert(old(self).view().remove(key_id) =~= old(self).view());
                }
                None
            },
        }
    }

    /// Changes a resident's weight in place, when the new weight still fits
    /// the budget.
    pub fn update(&mut self, key_id: KeyId, weight: Weight) -> (r: CommandStatus)
        requires
            old(self).wf(),
            weight > 0,
        ensures
            final(self).wf(),
            final(self).sketch() == old(self).sketch(),
            final(self).spec_total_cache_weight() == old(self).spec_total_cache_weight(),
            r == CommandStatus::Accepted || r == CommandStatus::Rejected,
            r == CommandStatus::Accepted <==> old(self).view().contains_key(key_id)
                && old(self).spec_weight_used() - old(self).view()[key_id].weight + weight
                <= old(self).spec_total_cache_weight(),
            r == CommandStatus::Accepted ==> final(self).view() == old(self).view().insert(
                key_id,
                KeyWeightEntry { weight, ..old(self).view()[key_id] },
            ) && final(self).spec_weight_used() == old(self).spec_weight_used() - old(self).view()[key_id].weight + weight,
            r == CommandStatus::Rejected ==> *final(self) == *old(self),
    {
        proof { lemma_table_view_index(self.entries()); }
        match self.position_of(key_id) {
            Some(i) => {
                proof { lemma_sum_bounds(self.entries()); }
                let old_weight = self.table[i].weight;
                let rest = self.weight_used - old_weight;
                if weight > self.total_cache_weight - rest {
                    return CommandStatus::Rejected;
                }
                let ghost s = self.entries();
                let ghost e = KeyWeightEntry { weight, ..s[i as int] };
                proof { lemma_update(s, i as int, e); }
                self.table[i].weight = weight;
                assert(self.entries() =~= s.update(i as int, e));
                self.weight_used = rest + weight;
                CommandStatus::Accepted
            },
            None => CommandStatus::Rejected,
        }
    }

    /// Position `k` of the sample that starts at `start`.
    pub open spec fn sample_position(start: int, k: int, len: int) -> int {
        (start + k) % len
    }

    /// Picks, among up to `SAMPLE_SIZE` residents starting at a position
    /// derived from `seed`, the one with the lowest estimate (lowest id on
    /// ties).
    fn sample_victim(&self, seed: u64) -> (r: usize)
        requires
            self.wf(),
            self.entries().len() > 0,
        ensures
            r < self.entries().len(),
            forall|k: int|
                0 <= k < SAMPLE_SIZE && k < self.entries().len() ==> self.estimate_of(self.entries()[r as int].key_hash)
                    <= self.estimate_of(
                    self.entries()[#[trigger] Self::sample_position(seed as int % self.entries().len() as int, k, self.entries().len() as int)].key_hash,
                ),
    {
        let len = self.table.len();
        let start = (seed % (len as u64)) as usize;
        let n = if len < SAMPLE_SIZE { len } else { SAMPLE_SIZE };
        let mut best: usize = start;
        let mut best_freq = self.sketch.estimate(self.table[start].key_hash);
        let mut k: usize = 1;
        proof {
            vstd::arithmetic::div_mod::lemma_small_mod(start as nat, len as nat);
            assert(start as int == Self::sample_position(start as int, 0, len as int));
        }
        while k < n
            invariant
                self.wf(),
                len == self.entries().len(),
                start < len,
                start as int == seed as int % len as int,
                n <= len,
                n <= SAMPLE_SIZE,
                1 <= k <= n,
                best < len,
                best_freq as nat == self.estimate_of(self.entries()[best as int].key_hash),
                forall|m: int| 0 <= m < k ==> best_freq as nat <= self.estimate_of(
                    self.entries()[#[trigger] Self::sample_position(start as int, m, len as int)].key_hash,
                ),
            decreases n - k,
        {
            let pos = if k < len - start { start + k } else { k - (len - start) };
            proof {
                if k < len - start {
                    vstd::arithmetic::div_mod::lemma_small_mod((start + k) as nat, len as nat);
                } else {
                    vstd::arithmetic::div_mod::lemma_small_mod(pos as nat, len as nat);
                    vstd::arithmetic::div_mod::lemma_mod_add_multiples_vanish(pos as int, len as int);
                    assert(start + k == pos + len);
                }
            }
            let f = self.sketch.estimate(self.table[pos].key_hash);
            if f < best_freq || (f == best_freq && self.table[pos].key_id < self.table[best].key_id) {
                best = pos;
                best_freq = f;
            }
            assert(pos as int == Self::sample_position(start as int, k as int, len as int));
            k = k + 1;
        }
        best
    }

    /// Admits a candidate if it is worth more than the residents it would
    /// displace. A candidate heavier than the whole budget is rejected; a
    /// known id has its weight updated if it still fits the budget; a
    /// candidate that fits is added. Else sampled least-frequent residents
    /// are evicted while they are less frequent than the candidate, until it
    /// fits; the first one that is not rejects it.
    pub fn maybe_add(&mut self, key: Key, key_id: KeyId, key_hash: u64, weight: Weight) -> (r: Admission<Key>)
        requires
            old(self).wf(),
            weight > 0,
        ensures
            final(self).wf(),
            final(self).sketch() == old(self).sketch(),
            final(self).spec_total_cache_weight() == old(self).spec_total_cache_weight(),
            r.status == CommandStatus::Accepted || r.status == CommandStatus::Rejected,
            weight > old(self).spec_total_cache_weight() ==> r.status == CommandStatus::Rejected && *final(self)
                == *old(self) && r.victims@.len() == 0,
            weight <= old(self).spec_total_cache_weight() && old(self).view().contains_key(key_id) ==> {
                &&& r.victims@.len() == 0
                &&& r.status == CommandStatus::Accepted <==> old(self).spec_weight_used() - old(self).view()[key_id].weight
                    + weight <= old(self).spec_total_cache_weight()
                &&& r.status == CommandStatus::Accepted ==> final(self).view() == old(self).view().insert(
                    key_id,
                    KeyWeightEntry { weight, ..old(self).view()[key_id] },
                )
                &&& r.status == CommandStatus::Rejected ==> *final(self) == *old(self)
            },
            !old(self).view().contains_key(key_id) && weight <= old(self).spec_total_cache_weight()
                - old(self).spec_weight_used() ==> r.status == CommandStatus::Accepted && r.victims@.len() == 0,
            weight <= old(self).spec_total_cache_weight() && !old(self).view().contains_key(key_id) ==> {
                &&& forall|j: int| 0 <= j < r.victims@.len() ==> old(self).view().contains_key(#[trigger] r.victims@[j].key_id)
                    && old(self).view()[r.victims@[j].key_id] == r.victims@[j]
                    && old(self).estimate_of(r.victims@[j].key_hash) < old(self).estimate_of(key_hash)
                &&& r.status == CommandStatus::Accepted ==> final(self).view() == old(self).view().remove_keys(
                    ids_of(r.victims@),
                ).insert(key_id, KeyWeightEntry { key_id, key, key_hash, weight }) && final(self).within_budget()
                    && final(self).spec_weight_used() == old(self).spec_weight_used() - sum_weights(r.victims@) + weight
                &&& r.status == CommandStatus::Rejected ==> final(self).spec_weight_used() == old(self).spec_weight_used()
                    - sum_weights(r.victims@)
                &&& r.status == CommandStatus::Rejected ==> final(self).view() == old(self).view().remove_keys(
                    ids_of(r.victims@),
                ) && exists|id: KeyId| #[trigger] final(self).view().contains_key(id)
                    && old(self).estimate_of(final(self).view()[id].key_hash) >= old(self).estimate_of(key_hash)
            },
            old(self).within_budget() && r.status == CommandStatus::Rejected ==> final(self).within_budget(),
    {
        let ghost before = *self;
        proof { lemma_sum_bounds(self.entries()); }
        if weight > self.total_cache_weight {
            return Admission { status: CommandStatus::Rejected, victims: Vec::new() };
        }
        if self.contains(key_id) {
            let status = self.update(key_id, weight);
            return Admission { status, victims: Vec::new() };
        }
        proof { lemma_sum_bounds(self.entries()); }
        let candidate_freq = self.sketch.estimate(key_hash);
        let mut victims: Vec<KeyWeightEntry<Key>> = Vec::new();
        let mut rejected = false;
        proof {
            assert(ids_of(victims@) =~= Set::<KeyId>::empty());
            assert(before.view().remove_keys(ids_of(victims@)) =~= before.view());
        }
        while !rejected && weight > self.total_cache_weight - self.weight_used
            invariant
                self.wf(),
                self.sketch() == before.sketch(),
                self.spec_total_cache_weight() == before.spec_total_cache_weight(),
                0 < weight <= self.spec_total_cache_weight(),
                candidate_freq as nat == before.estimate_of(key_hash),
                !before.view().contains_key(key_id),
                self.view() == before.view().remove_keys(ids_of(victims@)),
                0 <= self.spec_weight_used() <= before.spec_weight_used(),
                self.spec_weight_used() == before.spec_weight_used() - sum_weights(victims@),
                weight <= before.spec_total_cache_weight() - before.spec_weight_used() ==> victims@.len() == 0 && !rejected,
                forall|j: int| 0 <= j < victims@.len() ==> before.view().contains_key(#[trigger] victims@[j].key_id)
                    && before.view()[victims@[j].key_id] == victims@[j]
                    && before.estimate_of(victims@[j].key_hash) < candidate_freq as nat,
                rejected ==> exists|id: KeyId| #[trigger] self.view().contains_key(id)
                    && before.estimate_of(self.view()[id].key_hash) >= candidate_freq as nat,
            decreases self.entries().len() * 2 + if rejected { 0int } else { 1int },
        {
            proof {
                lemma_sum_bounds(self.entries());
                lemma_table_view_index(self.entries());
            }
            let v = self.sample_victim(key_hash);
            let victim_freq = self.sketch.estimate(self.table[v].key_hash);
            if victim_freq >= candidate_freq {
                rejected = true;
                proof {
                    assert(self.view().contains_key(self.entries()[v as int].key_id));
                }
            } else {
                let ghost s = self.entries();
                proof {
                    lemma_unique_remove(s, v as int);
                    assert(self.view().contains_key(s[v as int].key_id) && self.view()[s[v as int].key_id] == s[v as int]);
                    assert(before.view().contains_key(s[v as int].key_id) && before.view()[s[v as int].key_id] == s[v as int]);
                    assert(before.estimate_of(s[v as int].key_hash) < candidate_freq as nat);
                }
                let e = self.table.remove(v);
                self.weight_used = self.weight_used - e.weight;
                proof {
                    assert(ids_of(victims@.push(e)) =~= ids_of(victims@).insert(e.key_id)) by {
                        let f = |x: KeyWeightEntry<Key>| x.key_id;
                        assert(victims@.push(e).map_values(f) =~= victims@.map_values(f).push(e.key_id));
                        victims@.map_values(f).lemma_push_to_set_commute(e.key_id);
                    }
                    assert(before.view().remove_keys(ids_of(victims@)).remove(e.key_id) =~= before.view().remove_keys(
                        ids_of(victims@).insert(e.key_id),
                    ));
                }
                let ghost earlier = victims@;
                victims.push(e);
                proof {
                    assert(victims@.drop_last() =~= earlier);
                    assert forall|j: int| 0 <= j < victims@.len() implies before.view().contains_key(#[trigger] victims@[j].key_id)
                        && before.view()[victims@[j].key_id] == victims@[j]
                        && before.estimate_of(victims@[j].key_hash) < candidate_freq as nat by {
                        if j == victims@.len() - 1 {
                            assert(victims@[j] == s[v as int]);
                        } else {
                            assert(victims@[j] == earlier[j]);
                        }
                    }
                }
            }
        }
        if rejected {
            return Admission { status: CommandStatus::Rejected, victims };
        }
        let ghost s = self.entries();
        let ghost e = KeyWeightEntry { key_id, key, key_hash, weight };
        proof {
            lemma_table_view_index(s);
            lemma_push(s, e);
        }
        self.table.push(KeyWeightEntry { key_id, key, key_hash, weight });
        self.weight_used = self.weight_used + weight;
        Admission { status: CommandStatus::Accepted, victims }
    }

    /// Feeds a batch of observed accesses to the sketch, in order, aging it
    /// whenever that falls due.
    pub fn accept(&mut self, hashes: &Vec<u64>)
        requires
            old(self).wf(),
        ensures
            final(self).wf(),
            final(self).entries() == old(self).entries(),
            final(self).view() == old(self).view(),
            final(self).spec_weight_used() == old(self).spec_weight_used(),
            final(self).spec_total_cache_weight() == old(self).spec_total_cache_weight(),
            absorbed(old(self).sketch(), final(self).sketch(), hashes@),
    {
        let ghost mut states: Seq<FrequencySketch> = seq![self.sketch];
        let mut i: usize = 0;
        while i < hashes.len()
            invariant
                self.wf(),
                i <= hashes@.len(),
                self.entries() == old(self).entries(),
                self.spec_weight_used() == old(self).spec_weight_used(),
                self.spec_total_cache_weight() == old(self).spec_total_cache_weight(),
                states.len() == i + 1,
                states[0] == old(self).sketch(),
                states.last() == self.sketch(),
                forall|k: int| 0 <= k < i ==> absorbed_one(#[trigger] states[k], states[k + 1], hashes@[k]),
            decreases hashes@.len() - i,
        {
            let h = hashes[i];
            let ghost prev = self.sketch;
            self.sketch.increment(h);
            let ghost mid = self.sketch;
            self.sketch.reset_if_due();
            proof {
                assert(absorbed_one(prev, self.sketch, h));
                states = states.push(self.sketch);
                assert forall|k: int| 0 <= k < i + 1 implies absorbed_one(#[trigger] states[k], states[k + 1], hashes@[k]) by {
                    if k == i {
                        assert(states[k] == prev);
                    }
                }
            }
            i = i + 1;
        }
        proof {
            assert(absorbed(old(self).sketch(), self.sketch(), hashes@));
        }
    }

    /// Drops every resident.
    pub fn clear(&mut self)
        requires
            old(self).wf(),
        ensures
            final(self).wf(),
            final(self).view() == Map::<KeyId, KeyWeightEntry<Key>>::empty(),
            final(self).spec_weight_used() == 0,
            final(self).spec_total_cache_weight() == old(self).spec_total_cache_weight(),
            final(self).sketch() == old(self).sketch(),
            final(self).within_budget(),
    {
        self.table = Vec::new();
        self.weight_used = 0;
        assert(self.view() =~= Map::<KeyId, KeyWeightEntry<Key>>::empty());
    }
}

} // verus!
