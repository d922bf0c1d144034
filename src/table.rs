use vstd::prelude::*;

use crate::types::{KeyId, Weight};

verus! {

/// A resident of the key-weight table.
pub struct KeyWeightEntry<Key> {
    pub key_id: KeyId,
    pub key: Key,
    pub key_hash: u64,
    pub weight: Weight,
}

/// No two entries share an id.
pub open spec fn unique_ids<Key>(s: Seq<KeyWeightEntry<Key>>) -> bool {
    forall|i: int, j: int| 0 <= i < s.len() && 0 <= j < s.len() && i != j ==> #[trigger] s[i].key_id != #[trigger] s[j].key_id
}

/// Every entry weighs something.
pub open spec fn positive_weights<Key>(s: Seq<KeyWeightEntry<Key>>) -> bool {
    forall|i: int| 0 <= i < s.len() ==> #[trigger] s[i].weight > 0
}

/// The table as a map from id to entry.
pub open spec fn table_view<Key>(s: Seq<KeyWeightEntry<Key>>) -> Map<KeyId, KeyWeightEntry<Key>>
    decreases s.len(),
{
    if s.len() == 0 {
        Map::empty()
    } else {
        table_view(s.drop_last()).insert(s.last().key_id, s.last())
    }
}

/// Total weight of the entries.
pub open spec fn sum_weights<Key>(s: Seq<KeyWeightEntry<Key>>) -> int
    decreases s.len(),
{
    if s.len() == 0 {
        0
    } else {
        sum_weights(s.drop_last()) + s.last().weight
    }
}

/// Membership and lookup in the map view go by the entries' positions.
pub proof fn lemma_table_view_index<Key>(s: Seq<KeyWeightEntry<Key>>)
    requires
        unique_ids(s),
    ensures
        forall|id: KeyId| #[trigger] table_view(s).contains_key(id) <==> exists|i: int| 0 <= i < s.len() && s[i].key_id == id,
        forall|i: int| 0 <= i < s.len() ==> #[trigger] table_view(s)[s[i].key_id] == s[i],
        table_view(s).dom().finite(),
        table_view(s).dom().len() == s.len(),
    decreases s.len(),
{
    if s.len() > 0 {
        let p = s.drop_last();
        assert(unique_ids(p));
        lemma_table_view_index(p);
        assert(!table_view(p).contains_key(s.last().key_id)) by {
            if table_view(p).contains_key(s.last().key_id) {
                let i = choose|i: int| 0 <= i < p.len() && p[i].key_id == s.last().key_id;
                assert(s[i].key_id == s[s.len() - 1].key_id);
            }
        }
        assert forall|id: KeyId| #[trigger] table_view(s).contains_key(id) <==> exists|i: int| 0 <= i < s.len() && s[i].key_id == id by {
            if table_view(s).contains_key(id) && id != s.last().key_id {
                let i = choose|i: int| 0 <= i < p.len() && p[i].key_id == id;
                assert(s[i].key_id == id);
            }
            if exists|i: int| 0 <= i < s.len() && s[i].key_id == id {
                let i = choose|i: int| 0 <= i < s.len() && s[i].key_id == id;
                if i < s.len() - 1 {
                    assert(p[i].key_id == id);
                }
            }
        }
        assert forall|i: int| 0 <= i < s.len() implies #[trigger] table_view(s)[s[i].key_id] == s[i] by {
            if i < s.len() - 1 {
                assert(p[i] == s[i]);
                assert(table_view(p)[p[i].key_id] == p[i]);
            }
        }
    }
}

pub proof fn lemma_unique_remove<Key>(s: Seq<KeyWeightEntry<Key>>, k: int)
    requires
        unique_ids(s),
        positive_weights(s),
        0 <= k < s.len(),
    ensures
        unique_ids(s.remove(k)),
        positive_weights(s.remove(k)),
        table_view(s.remove(k)) == table_view(s).remove(s[k].key_id),
        sum_weights(s.remove(k)) == sum_weights(s) - s[k].weight,
{
    let r = s.remove(k);
    assert forall|i: int, j: int| 0 <= i < r.len() && 0 <= j < r.len() && i != j implies #[trigger] r[i].key_id != #[trigger] r[j].key_id by {
        let si = if i < k { i } else { i + 1 };
        let sj = if j < k { j } else { j + 1 };
        assert(r[i] == s[si] && r[j] == s[sj]);
    }
    assert forall|i: int| 0 <= i < r.len() implies #[trigger] r[i].weight > 0 by {
        let si = if i < k { i } else { i + 1 };
        assert(r[i] == s[si]);
    }
    lemma_table_view_index(s);
    lemma_table_view_index(r);
    assert forall|id: KeyId| #[trigger] table_view(r).contains_key(id) <==> table_view(s).remove(s[k].key_id).contains_key(id) by {
        if table_view(r).contains_key(id) {
            let i = choose|i: int| 0 <= i < r.len() && r[i].key_id == id;
            let si = if i < k { i } else { i + 1 };
            assert(s[si].key_id == id);
        }
        if table_view(s).remove(s[k].key_id).contains_key(id) {
            let i = choose|i: int| 0 <= i < s.len() && s[i].key_id == id;
            assert(i != k);
            let ri = if i < k { i } else { i - 1 };
            assert(r[ri].key_id == id);
        }
    }
    assert forall|id: KeyId| #[trigger] table_view(r).contains_key(id) implies table_view(r)[id] == table_view(s)[id] by {
        let i = choose|i: int| 0 <= i < r.len() && r[i].key_id == id;
        let si = if i < k { i } else { i + 1 };
        assert(r[i] == s[si]);
    }
    assert(table_view(r) =~= table_view(s).remove(s[k].key_id));
    lemma_sum_remove(s, k);
}

proof fn lemma_sum_remove<Key>(s: Seq<KeyWeightEntry<Key>>, k: int)
    requires
        0 <= k < s.len(),
    ensures
        sum_weights(s.remove(k)) == sum_weights(s) - s[k].weight,
    decreases s.len(),
{
    if k == s.len() - 1 {
        assert(s.remove(k) =~= s.drop_last());
    } else {
        let p = s.drop_last();
        lemma_sum_remove(p, k);
        assert(s.remove(k).drop_last() =~= p.remove(k));
        assert(s.remove(k).last() == s.last());
    }
}

pub proof fn lemma_push<Key>(s: Seq<KeyWeightEntry<Key>>, e: KeyWeightEntry<Key>)
    requires
        unique_ids(s),
        positive_weights(s),
        !table_view(s).contains_key(e.key_id),
        e.weight > 0,
    ensures
        unique_ids(s.push(e)),
        positive_weights(s.push(e)),
        table_view(s.push(e)) == table_view(s).insert(e.key_id, e),
        sum_weights(s.push(e)) == sum_weights(s) + e.weight,
{
    lemma_table_view_index(s);
    let t = s.push(e);
    assert(t.drop_last() =~= s);
    assert forall|i: int, j: int| 0 <= i < t.len() && 0 <= j < t.len() && i != j implies #[trigger] t[i].key_id != #[trigger] t[j].key_id by {
        if i == s.len() {
            assert(!(exists|m: int| 0 <= m < s.len() && s[m].key_id == e.key_id));
            assert(t[j] == s[j]);
        } else if j == s.len() {
            assert(!(exists|m: int| 0 <= m < s.len() && s[m].key_id == e.key_id));
            assert(t[i] == s[i]);
        } else {
            assert(t[i] == s[i] && t[j] == s[j]);
        }
    }
    assert forall|i: int| 0 <= i < t.len() implies #[trigger] t[i].weight > 0 by {
        if i < s.len() {
            assert(t[i] == s[i]);
        }
    }
}

pub proof fn lemma_update<Key>(s: Seq<KeyWeightEntry<Key>>, k: int, e: KeyWeightEntry<Key>)
    requires
        unique_ids(s),
        positive_weights(s),
        0 <= k < s.len(),
        e.key_id == s[k].key_id,
        e.weight > 0,
    ensures
        unique_ids(s.update(k, e)),
        positive_weights(s.update(k, e)),
        table_view(s.update(k, e)) == table_view(s).insert(e.key_id, e),
        sum_weights(s.update(k, e)) == sum_weights(s) - s[k].weight + e.weight,
{
    let t = s.update(k, e);
    assert forall|i: int, j: int| 0 <= i < t.len() && 0 <= j < t.len() && i != j implies #[trigger] t[i].key_id != #[trigger] t[j].key_id by {
        assert(t[i].key_id == s[i].key_id && t[j].key_id == s[j].key_id);
    }
    lemma_table_view_index(s);
    lemma_table_view_index(t);
    assert forall|id: KeyId| #[trigger] table_view(t).contains_key(id) <==> table_view(s).insert(e.key_id, e).contains_key(id) by {
        if table_view(t).contains_key(id) {
            let i = choose|i: int| 0 <= i < t.len() && t[i].key_id == id;
            assert(s[i].key_id == id);
        }
        if table_view(s).contains_key(id) {
            let i = choose|i: int| 0 <= i < s.len() && s[i].key_id == id;
            assert(t[i].key_id == id);
        }
        if id == e.key_id {
            assert(t[k].key_id == id);
        }
    }
    assert forall|id: KeyId| #[trigger] table_view(t).contains_key(id) implies table_view(t)[id] == table_view(s).insert(e.key_id, e)[id] by {
        let i = choose|i: int| 0 <= i < t.len() && t[i].key_id == id;
        if i != k {
            assert(t[i] == s[i]);
        }
    }
    assert(table_view(t) =~= table_view(s).insert(e.key_id, e));
    lemma_sum_update(s, k, e);
}

proof fn lemma_sum_update<Key>(s: Seq<KeyWeightEntry<Key>>, k: int, e: KeyWeightEntry<Key>)
    requires
        0 <= k < s.len(),
    ensures
        sum_weights(s.update(k, e)) == sum_weights(s) - s[k].weight + e.weight,
    decreases s.len(),
{
    let t = s.update(k, e);
    if k == s.len() - 1 {
        assert(t.drop_last() =~= s.drop_last());
    } else {
        lemma_sum_update(s.drop_last(), k, e);
        assert(t.drop_last() =~= s.drop_last().update(k, e));
    }
}

/// An entry's weight is part of the total, which is never negative.
pub proof fn lemma_sum_bounds<Key>(s: Seq<KeyWeightEntry<Key>>)
    requires
        positive_weights(s),
    ensures
        sum_weights(s) >= 0,
        s.len() > 0 ==> sum_weights(s) > 0,
        forall|i: int| 0 <= i < s.len() ==> #[trigger] s[i].weight <= sum_weights(s),
    decreases s.len(),
{
    if s.len() > 0 {
        let p = s.drop_last();
        assert(positive_weights(p)) by {
            assert forall|i: int| 0 <= i < p.len() implies #[trigger] p[i].weight > 0 by {
                assert(p[i] == s[i]);
            }
        }
        lemma_sum_bounds(p);
        assert forall|i: int| 0 <= i < s.len() implies #[trigger] s[i].weight <= sum_weights(s) by {
            if i < s.len() - 1 {
                assert(p[i] == s[i]);
            }
        }
    }
}

} // verus!
