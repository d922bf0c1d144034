use vstd::prelude::*;

use crate::types::{KeyId, Millis};

verus! {

/// A value held by the store, with the identity of the write that put it
/// there and, optionally, the instant after which it is no longer alive.
#[derive(Clone)]
pub struct StoredValue<Value> {
    value: Value,
    key_id: KeyId,
    expire_after: Option<Millis>,
}

impl<Value> StoredValue<Value> {
    pub closed spec fn spec_value(&self) -> Value {
        self.value
    }

    pub closed spec fn spec_key_id(&self) -> KeyId {
        self.key_id
    }

    pub closed spec fn spec_expire_after(&self) -> Option<Millis> {
        self.expire_after
    }

    /// Alive at `now` unless an expiry is set and `now` has reached it.
    pub open spec fn alive_at(&self, now: Millis) -> bool {
        match self.spec_expire_after() {
            Some(e) => now < e,
            None => true,
        }
    }

    pub fn never_expiring(value: Value, key_id: KeyId) -> (r: Self)
        ensures
            r.spec_value() == value,
            r.spec_key_id() == key_id,
            r.spec_expire_after() == None::<Millis>,
    {
        StoredValue { value, key_id, expire_after: None }
    }

    /// A value that expires `time_to_live` milliseconds after `now`.
    pub fn expiring(value: Value, key_id: KeyId, time_to_live: Millis, now: Millis) -> (r: Self)
        requires
            now + time_to_live <= u64::MAX,
        ensures
            r.spec_value() == value,
            r.spec_key_id() == key_id,
            r.spec_expire_after() == Some((now + time_to_live) as Millis),
    {
        StoredValue { value, key_id, expire_after: Some(now + time_to_live) }
    }

    pub fn is_alive(&self, now: Millis) -> (r: bool)
        ensures
            r == self.alive_at(now),
    {
        match self.expire_after {
            Some(expire_after) => now < expire_after,
            None => true,
        }
    }

    pub fn value_ref(&self) -> (r: &Value)
        ensures
            *r == self.spec_value(),
    {
        &self.value
    }

    pub fn key_id(&self) -> (r: KeyId)
        ensures
            r == self.spec_key_id(),
    {
        self.key_id
    }

    pub fn expire_after(&self) -> (r: Option<Millis>)
        ensures
            r == self.spec_expire_after(),
    {
        self.expire_after
    }

    /// The same entry holding another value.
    pub fn with_value(self, value: Value) -> (r: Self)
        ensures
            r.spec_value() == value,
            r.spec_key_id() == self.spec_key_id(),
            r.spec_expire_after() == self.spec_expire_after(),
    {
        StoredValue { value, key_id: self.key_id, expire_after: self.expire_after }
    }

    /// The same entry with its expiry replaced.
    pub fn with_expiry(self, expire_after: Option<Millis>) -> (r: Self)
        ensures
            r.spec_value() == self.spec_value(),
            r.spec_key_id() == self.spec_key_id(),
            r.spec_expire_after() == expire_after,
    {
        StoredValue { value: self.value, key_id: self.key_id, expire_after }
    }
}

impl<Value: Clone> StoredValue<Value> {
    pub fn value(&self) -> (r: Value)
        ensures
            cloned(self.spec_value(), r),
    {
        self.value.clone()
    }
}

} // verus!
