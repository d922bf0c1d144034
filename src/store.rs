use vstd::prelude::*;

use std::collections::HashMap;
use std::hash::Hash;

use vstd::std_specs::hash::obeys_key_model;

use crate::stored_value::StoredValue;
use crate::types::{KeyId, Millis};

verus! {

broadcast use vstd::std_specs::hash::group_hash_axioms;

/// How an update changed an entry's expiry.
#[derive(PartialEq, Eq, Structural, Debug, Clone, Copy)]
pub enum TypeOfExpiryUpdate {
    /// The entry had no expiry and now has one.
    Added(KeyId, Millis),
    /// The entry's expiry was removed.
    Deleted(KeyId, Millis),
    /// The entry's expiry moved from the first instant to the second.
    Updated(KeyId, Millis, Millis),
    /// The expiry was left as it was.
    Nothing,
}

/// What `Store::update` did to a present key.
pub struct UpdateResponse {
    /// The key's id, which an update keeps.
    pub key_id: KeyId,
    pub type_of_expiry_update: TypeOfExpiryUpdate,
}

/// The expiry an update leaves: a new time to live wins over removal,
/// which wins over keeping the current one.
pub open spec fn updated_expiry(
    current: Option<Millis>,
    time_to_live: Option<Millis>,
    remove_time_to_live: bool,
    now: Millis,
) -> Option<Millis> {
    match time_to_live {
        Some(t) => Some((now + t) as Millis),
        None => if remove_time_to_live {
            None
        } else {
            current
        },
    }
}

/// The expiry transition between two expiries of one entry.
pub open spec fn expiry_transition(key_id: KeyId, before: Option<Millis>, after: Option<Millis>) -> TypeOfExpiryUpdate {
    match (before, after) {
        (None, Some(e)) => TypeOfExpiryUpdate::Added(key_id, e),
        (Some(e), None) => TypeOfExpiryUpdate::Deleted(key_id, e),
        (Some(b), Some(a)) => if b == a {
            TypeOfExpiryUpdate::Nothing
        } else {
            TypeOfExpiryUpdate::Updated(key_id, b, a)
        },
        (None, None) => TypeOfExpiryUpdate::Nothing,
    }
}

/// Owns the cached values, by key.
pub struct Store<Key, Value> {
    entries: HashMap<Key, StoredValue<Value>>,
}

impl<Key: Hash + Eq, Value> Store<Key, Value> {
    pub closed spec fn view(&self) -> Map<Key, StoredValue<Value>> {
        self.entries@
    }

    pub fn new() -> (r: Self)
        ensures
            r.view() == Map::<Key, StoredValue<Value>>::empty(),
    {
        Store { entries: HashMap::new() }
    }

    /// Inserts or replaces the entry of `key`, returning the one replaced.
    pub fn put(&mut self, key: Key, stored: StoredValue<Value>) -> (r: Option<StoredValue<Value>>)
        requires
            obeys_key_model::<Key>(),
        ensures
            final(self).view() == old(self).view().insert(key, stored),
            r == if old(self).view().contains_key(key) {
                Some(old(self).view()[key])
            } else {
                None::<StoredValue<Value>>
            },
    {
        self.entries.insert(key, stored)
    }

    /// The entry of `key`, alive or not.
    pub fn entry(&self, key: &Key) -> (r: Option<&StoredValue<Value>>)
        requires
            obeys_key_model::<Key>(),
        ensures
            r == if self.view().contains_key(*key) {
                Some(&self.view()[*key])
            } else {
                None::<&StoredValue<Value>>
            },
    {
        self.entries.get(key)
    }

    /// The entry of `key` if it is alive at `now`.
    pub fn get_ref(&self, key: &Key, now: Millis) -> (r: Option<&StoredValue<Value>>)
        requires
            obeys_key_model::<Key>(),
        ensures
            r == if self.view().contains_key(*key) && self.view()[*key].alive_at(now) {
                Some(&self.view()[*key])
            } else {
                None::<&StoredValue<Value>>
            },
    {
        match self.entries.get(key) {
            Some(stored) => {
                if stored.is_alive(now) {
                    Some(stored)
                } else {
                    None
                }
            },
            None => None,
        }
    }

    /// Removes the entry of `key`, returning its id and expiry.
    pub fn delete(&mut self, key: &Key) -> (r: Option<(KeyId, Option<Millis>)>)
        requires
            obeys_key_model::<Key>(),
        ensures
            final(self).view() == old(self).view().remove(*key),
            r == if old(self).view().contains_key(*key) {
                Some((old(self).view()[*key].spec_key_id(), old(self).view()[*key].spec_expire_after()))
            } else {
                None::<(KeyId, Option<Millis>)>
            },
            r is None ==> *final(self) == *old(self),
    {
        if !self.entries.contains_key(key) {
            proof { assert(old(self).view().remove(*key) =~= old(self).view()); }
            return None;
        }
        match self.entries.remove(key) {
            Some(stored) => Some((stored.key_id(), stored.expire_after())),
            None => None,
        }
    }

    /// Changes the value and/or expiry of a present key in place.
    pub fn update(
        &mut self,
        key: Key,
        value: Option<Value>,
        time_to_live: Option<Millis>,
        remove_time_to_live: bool,
        now: Millis,
    ) -> (r: UpdateResponse)
        requires
            obeys_key_model::<Key>(),
            old(self).view().contains_key(key),
            time_to_live is Some ==> now + time_to_live->0 <= u64::MAX,
        ensures
            ({
                let current = old(self).view()[key];
                let expiry = updated_expiry(current.spec_expire_after(), time_to_live, remove_time_to_live, now);
                &&& r.key_id == current.spec_key_id()
                &&& final(self).view().dom() == old(self).view().dom()
                &&& forall|k: Key| k != key && #[trigger] old(self).view().contains_key(k) ==> final(self).view()[k]
                    == old(self).view()[k]
                &&& final(self).view()[key].spec_key_id() == current.spec_key_id()
                &&& final(self).view()[key].spec_expire_after() == expiry
                &&& final(self).view()[key].spec_value() == match value {
                    Some(v) => v,
                    None => current.spec_value(),
                }
                &&& r.type_of_expiry_update == expiry_transition(current.spec_key_id(), current.spec_expire_after(), expiry)
            }),
    {
        match self.entries.remove(&key) {
            None => {
                proof { assert(false); }
                UpdateResponse { key_id: 0, type_of_expiry_update: TypeOfExpiryUpdate::Nothing }
            },
            Some(current) => {
                let key_id = current.key_id();
                let before = current.expire_after();
                let after = match time_to_live {
                    Some(t) => Some(now + t),
                    None => if remove_time_to_live {
                        None
                    } else {
                        before
                    },
                };
                let transition = match (before, after) {
                    (None, Some(e)) => TypeOfExpiryUpdate::Added(key_id, e),
                    (Some(e), None) => TypeOfExpiryUpdate::Deleted(key_id, e),
                    (Some(b), Some(a)) => if b == a {
                        TypeOfExpiryUpdate::Nothing
                    } else {
                        TypeOfExpiryUpdate::Updated(key_id, b, a)
                    },
                    (None, None) => TypeOfExpiryUpdate::Nothing,
                };
                let next = match value {
                    Some(v) => current.with_value(v),
                    None => current,
                };
                let next = next.with_expiry(after);
                self.entries.insert(key, next);
                proof {
                    assert(self.view().dom() =~= old(self).view().dom());
                }
                UpdateResponse { key_id, type_of_expiry_update: transition }
            },
        }
    }

    pub fn contains(&self, key: &Key) -> (r: bool)
        requires
            obeys_key_model::<Key>(),
        ensures
            r == self.view().contains_key(*key),
    {
        self.entries.contains_key(key)
    }

    /// Drops every entry.
    pub fn clear(&mut self)
        ensures
            final(self).view() == Map::<Key, StoredValue<Value>>::empty(),
    {
        self.entries.clear();
    }
}

} // verus!
