use vstd::prelude::*;

use crate::frequency::MAX_COUNTERS;
use crate::expiration::MAX_TTL_SHARDS;
use crate::pool::MAX_SLOTS;
use crate::types::{Millis, Weight};

verus! {

/// Sizing of a cache.
#[derive(Clone, Copy, Debug)]
pub struct Config {
    /// Frequency counters in the sketch.
    pub counters: u64,
    /// Expected number of resident keys.
    pub capacity: usize,
    /// Budget that the weights of resident keys share.
    pub total_cache_weight: Weight,
    /// Store shards; a power of two, at least 2.
    pub shards: usize,
    /// Access buffers; a power of two.
    pub access_pool_size: usize,
    /// Hashes per access buffer.
    pub access_buffer_size: usize,
    /// Commands the writer's queue holds.
    pub command_buffer_size: usize,
    /// TTL ticker shards.
    pub ttl_shards: usize,
    /// Time between two TTL scans, in milliseconds.
    pub ttl_tick_duration: Millis,
}

pub open spec fn is_power_of_two(n: usize) -> bool
    decreases n,
{
    if n == 1 {
        true
    } else if n < 1 || n % 2 == 1 {
        false
    } else {
        is_power_of_two(n / 2)
    }
}

fn power_of_two(n: usize) -> (r: bool)
    ensures
        r == is_power_of_two(n),
{
    let mut m = n;
    while m > 1 && m % 2 == 0
        invariant
            is_power_of_two(m) == is_power_of_two(n),
        decreases m,
    {
        m = m / 2;
    }
    m == 1
}

impl Config {
    /// A configuration with the given counters, capacity and weight budget,
    /// and defaults for the rest.
    pub fn new(counters: u64, capacity: usize, total_cache_weight: Weight) -> (r: Self)
        ensures
            r.counters == counters,
            r.capacity == capacity,
            r.total_cache_weight == total_cache_weight,
            r.shards == 16,
            r.access_pool_size == 4,
            r.access_buffer_size == 64,
            r.command_buffer_size == 1024,
            r.ttl_shards == 16,
            r.ttl_tick_duration == 500,
    {
        Config {
            counters,
            capacity,
            total_cache_weight,
            shards: 16,
            access_pool_size: 4,
            access_buffer_size: 64,
            command_buffer_size: 1024,
            ttl_shards: 16,
            ttl_tick_duration: 500,
        }
    }

    /// Whether a cache can be built with this configuration.
    pub open spec fn valid(&self) -> bool {
        &&& 0 < self.counters <= MAX_COUNTERS
        &&& self.total_cache_weight > 0
        &&& self.shards >= 2 && is_power_of_two(self.shards)
        &&& self.access_pool_size > 0 && is_power_of_two(self.access_pool_size)
        &&& self.access_buffer_size > 0
        &&& self.access_pool_size * self.access_buffer_size <= MAX_SLOTS
        &&& self.command_buffer_size > 0
        &&& 0 < self.ttl_shards <= MAX_TTL_SHARDS
    }

    pub fn is_valid(&self) -> (r: bool)
        ensures
            r == self.valid(),
    {
        if self.access_pool_size == 0 {
            return false;
        }
        let p = self.access_pool_size;
        let b = self.access_buffer_size;
        let fits = b <= MAX_SLOTS / p;
        proof {
            if fits {
                assert(p * b <= p * (MAX_SLOTS / p)) by (nonlinear_arith)
                    requires b <= MAX_SLOTS / p, p > 0;
                assert(p * (MAX_SLOTS / p) <= MAX_SLOTS) by (nonlinear_arith)
                    requires p > 0;
            } else {
                assert(p * b > MAX_SLOTS) by (nonlinear_arith)
                    requires b > MAX_SLOTS / p, p > 0;
            }
        }
        0 < self.counters && self.counters <= MAX_COUNTERS && self.total_cache_weight > 0 && self.shards >= 2
            && power_of_two(self.shards) && power_of_two(p) && b > 0 && fits && self.command_buffer_size > 0
            && 0 < self.ttl_shards && self.ttl_shards <= MAX_TTL_SHARDS
    }
}

} // verus!
