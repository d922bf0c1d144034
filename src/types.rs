use vstd::prelude::*;

verus! {

/// Identity handed to each write; strictly increasing over a cache's lifetime.
pub type KeyId = u64;

/// Byte-like cost of holding a key/value pair.
pub type Weight = i64;

/// A point in time, in milliseconds since the clock's epoch.
pub type Millis = u64;

/// Milliseconds in one second; TTL buckets are whole seconds.
pub const MILLIS_PER_SECOND: u64 = 1000;

/// The whole second an instant falls into.
pub open spec fn second_of(instant: Millis) -> u64 {
    instant / MILLIS_PER_SECOND
}

/// Final status of a command applied by the single writer.
#[derive(PartialEq, Eq, Structural, Debug, Clone, Copy)]
pub enum CommandStatus {
    Accepted,
    Rejected,
    Shutdown,
}

/// Why a command could not be handed to the writer.
#[derive(PartialEq, Eq, Structural, Debug, Clone, Copy)]
pub enum CommandSendError {
    /// The cache is shutting down; no new command is accepted.
    Shutdown,
}

/// Hashing, equality and cloning of keys behave as on plain values: the
/// hash map model holds, and a clone equals its original.
pub open spec fn keys_behave<Key: Clone>() -> bool {
    &&& vstd::std_specs::hash::obeys_key_model::<Key>()
    &&& forall|a: Key, b: Key| #[trigger] vstd::pervasive::strictly_cloned(a, b) ==> a == b
}

} // verus!
