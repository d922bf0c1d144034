use vstd::prelude::*;

use crate::types::{KeyId, Weight};

verus! {

/// What a write tells the admission policy about its key.
pub struct KeyDescription<Key> {
    pub key: Key,
    pub id: KeyId,
    pub hash: u64,
    pub weight: Weight,
}

impl<Key> KeyDescription<Key> {
    pub fn new(key: Key, id: KeyId, hash: u64, weight: Weight) -> (r: Self)
        ensures
            r == (KeyDescription { key, id, hash, weight }),
    {
        KeyDescription { key, id, hash, weight }
    }
}

} // verus!
