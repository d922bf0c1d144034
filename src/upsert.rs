use vstd::prelude::*;

use crate::types::{Millis, Weight};

verus! {

/// An "update if present, else put" of a key, changing any subset of its
/// value, weight and time to live.
pub struct UpsertRequest<Key, Value> {
    pub key: Key,
    pub value: Option<Value>,
    pub weight: Option<Weight>,
    pub time_to_live: Option<Millis>,
    pub remove_time_to_live: bool,
}

impl<Key, Value> UpsertRequest<Key, Value> {
    /// The weight the request asks for: the one given, else the one computed
    /// from the key and the new value, else none.
    pub fn updated_weight<F: Fn(&Key, &Value) -> Weight>(&self, weight_calculation_fn: &F) -> (r: Option<Weight>)
        requires
            forall|k: &Key, v: &Value| weight_calculation_fn.requires((k, v)),
        ensures
            match self.weight {
                Some(w) => r == Some(w),
                None => match self.value {
                    None => r is None,
                    Some(v) => r is Some && weight_calculation_fn.ensures((&self.key, &v), r->0),
                },
            },
    {
        match self.weight {
            Some(w) => Some(w),
            None => match &self.value {
                Some(v) => Some(weight_calculation_fn(&self.key, v)),
                None => None,
            },
        }
    }
}

/// Builds an `UpsertRequest` one field at a time.
pub struct UpsertRequestBuilder<Key, Value> {
    key: Key,
    value: Option<Value>,
    weight: Option<Weight>,
    time_to_live: Option<Millis>,
    remove_time_to_live: bool,
}

impl<Key, Value> UpsertRequestBuilder<Key, Value> {
    /// What `build` would return now.
    pub closed spec fn request(&self) -> UpsertRequest<Key, Value> {
        UpsertRequest {
            key: self.key,
            value: self.value,
            weight: self.weight,
            time_to_live: self.time_to_live,
            remove_time_to_live: self.remove_time_to_live,
        }
    }

    pub fn new(key: Key) -> (r: Self)
        ensures
            r.request() == (UpsertRequest::<Key, Value> {
                key,
                value: None,
                weight: None,
                time_to_live: None,
                remove_time_to_live: false,
            }),
    {
        UpsertRequestBuilder { key, value: None, weight: None, time_to_live: None, remove_time_to_live: false }
    }

    pub fn value(self, value: Value) -> (r: Self)
        ensures
            r.request() == (UpsertRequest { value: Some(value), ..self.request() }),
    {
        UpsertRequestBuilder { value: Some(value), ..self }
    }

    pub fn weight(self, weight: Weight) -> (r: Self)
        ensures
            r.request() == (UpsertRequest { weight: Some(weight), ..self.request() }),
    {
        UpsertRequestBuilder { weight: Some(weight), ..self }
    }

    /// Sets the time to live, in milliseconds.
    pub fn time_to_live(self, time_to_live: Millis) -> (r: Self)
        ensures
            r.request() == (UpsertRequest { time_to_live: Some(time_to_live), ..self.request() }),
    {
        UpsertRequestBuilder { time_to_live: Some(time_to_live), ..self }
    }

    pub fn remove_time_to_live(self) -> (r: Self)
        ensures
            r.request() == (UpsertRequest { remove_time_to_live: true, ..self.request() }),
    {
        UpsertRequestBuilder { remove_time_to_live: true, ..self }
    }

    pub fn build(self) -> (r: UpsertRequest<Key, Value>)
        ensures
            r == self.request(),
    {
        UpsertRequest {
            key: self.key,
            value: self.value,
            weight: self.weight,
            time_to_live: self.time_to_live,
            remove_time_to_live: self.remove_time_to_live,
        }
    }
}

} // verus!
