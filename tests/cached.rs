use cached::cached::{CacheD, TTL_TICKER_ENTRY_SIZE};
use cached::config::Config;
use cached::stored_value::StoredValue;
use cached::types::{CommandSendError, CommandStatus};
use cached::upsert::UpsertRequestBuilder;

type Key = &'static str;
type Value = &'static str;
type Hasher = fn(&Key) -> u64;
type Weigher = fn(&Key, &Value, bool) -> i64;
type Cache = CacheD<Key, Value, Hasher, Weigher>;

const NOW: u64 = 0;

fn fnv(bytes: &[u8]) -> u64 {
    let mut hash: u64 = 0xcbf2_9ce4_8422_2325;
    for b in bytes {
        hash ^= *b as u64;
        hash = hash.wrapping_mul(0x0100_0000_01b3);
    }
    hash
}

fn hash_of(key: &Key) -> u64 {
    fnv(key.as_bytes())
}

fn weight_of(_key: &Key, _value: &Value, has_time_to_live: bool) -> i64 {
    let size = std::mem::size_of::<Key>() + std::mem::size_of::<StoredValue<Value>>();
    size as i64 + if has_time_to_live { TTL_TICKER_ENTRY_SIZE } else { 0 }
}

fn cache_with(config: Config) -> Cache {
    CacheD::new(config, hash_of as Hasher, weight_of as Weigher, NOW)
}

fn test_cache() -> Cache {
    cache_with(Config::new(100, 10, 100))
}

fn key_id_of(cached: &mut Cache, key: Key) -> u64 {
    cached.get_ref(&key, NOW).unwrap().key_id()
}

fn weight_in_policy(cached: &mut Cache, key: Key) -> Option<i64> {
    let key_id = key_id_of(cached, key);
    cached.admission_policy().weight_of(key_id)
}

#[test]
fn put_a_key_value_without_weight_and_ttl() {
    let mut cached: CacheD<u64, u64, fn(&u64) -> u64, fn(&u64, &u64, bool) -> i64> = CacheD::new(
        Config::new(100, 10, 100),
        (|key: &u64| *key) as fn(&u64) -> u64,
        (|_key: &u64, _value: &u64, has_ttl: bool| {
            (std::mem::size_of::<u64>() + std::mem::size_of::<StoredValue<u64>>()) as i64 + if has_ttl { 24 } else { 0 }
        }) as fn(&u64, &u64, bool) -> i64,
        NOW,
    );
    let key: u64 = 100;
    let value: u64 = 1000;

    assert_eq!(Ok(CommandStatus::Accepted), cached.put(key, value));

    let stored_value = cached.get_ref(&100, NOW).unwrap().clone();
    let key_id = stored_value.key_id();
    assert_eq!(1000, stored_value.value());
    assert_eq!(Some(40), cached.admission_policy().weight_of(key_id));
}

#[test]
fn put_a_key_value_without_weight_with_ttl() {
    let mut cached: CacheD<u64, u64, fn(&u64) -> u64, fn(&u64, &u64, bool) -> i64> = CacheD::new(
        Config::new(100, 10, 100),
        (|key: &u64| *key) as fn(&u64) -> u64,
        (|_key: &u64, _value: &u64, has_ttl: bool| {
            (std::mem::size_of::<u64>() + std::mem::size_of::<StoredValue<u64>>()) as i64 + if has_ttl { 24 } else { 0 }
        }) as fn(&u64, &u64, bool) -> i64,
        NOW,
    );

    assert_eq!(Ok(CommandStatus::Accepted), cached.put_with_ttl(100, 1000, 300_000, NOW));

    let stored_value = cached.get_ref(&100, NOW).unwrap().clone();
    let key_id = stored_value.key_id();
    assert_eq!(1000, stored_value.value());
    assert_eq!(Some(64), cached.admission_policy().weight_of(key_id));
}

#[test]
fn basic_put_and_get() {
    let mut cached = test_cache();

    assert_eq!(Ok(CommandStatus::Accepted), cached.put("topic", "microservices"));

    assert_eq!(Some("microservices"), cached.get(&"topic", NOW));
    assert_eq!(weight_of(&"topic", &"microservices", false), cached.total_weight_used());
}

#[test]
fn put_a_key_value_with_weight() {
    let mut cached = test_cache();

    assert_eq!(Ok(CommandStatus::Accepted), cached.put_with_weight("topic", "microservices", 50));

    let stored_value = cached.get_ref(&"topic", NOW).unwrap().clone();
    assert_eq!("microservices", stored_value.value());
    assert_eq!(Some(50), weight_in_policy(&mut cached, "topic"));
}

#[test]
fn put_a_key_value_with_ttl() {
    let mut cached = test_cache();

    cached.put_with_ttl("topic", "microservices", 120_000, NOW).unwrap();

    assert_eq!(Some("microservices"), cached.get(&"topic", NOW));
}

#[test]
fn put_a_key_value_with_ttl_and_ttl_ticker_evicts_it() {
    let mut cached = cache_with(Config { shards: 2, ttl_tick_duration: 10, ..Config::new(100, 10, 100) });

    cached.put_with_ttl("topic", "microservices", 20, NOW).unwrap();
    assert_eq!(Some("microservices"), cached.get(&"topic", NOW));
    let key_id = key_id_of(&mut cached, "topic");

    cached.expire(NOW + 30);
    assert_eq!(None, cached.get(&"topic", NOW + 30));
    assert!(!cached.admission_policy().contains(key_id));
}

#[test]
fn put_a_key_value_with_weight_and_ttl() {
    let mut cached = test_cache();

    cached.put_with_weight_and_ttl("topic", "microservices", 10, 120_000, NOW).unwrap();

    assert_eq!(Some("microservices"), cached.get(&"topic", NOW));
}

#[test]
fn get_value_ref_for_a_non_existing_key() {
    let mut cached = test_cache();

    let value = cached.get_ref(&"non-existing", NOW);
    assert!(value.is_none());
}

#[test]
fn get_value_ref_for_a_non_existing_key_and_attempt_to_map_it() {
    let mut cached = test_cache();

    let value = cached.map_get_ref(&"non_existing", NOW, |stored_value: &StoredValue<Value>| stored_value.value_ref().to_uppercase());
    assert!(value.is_none());
}

#[test]
fn get_value_ref_for_an_existing_key() {
    let mut cached = test_cache();

    cached.put("topic", "microservices").unwrap();

    let value = cached.get_ref(&"topic", NOW);
    assert_eq!(&"microservices", value.unwrap().value_ref());
}

#[test]
fn get_value_ref_for_an_existing_key_and_map_it() {
    let mut cached = test_cache();

    cached.put("topic", "microservices").unwrap();

    let value = cached.map_get_ref(&"topic", NOW, |stored_value: &StoredValue<Value>| stored_value.value_ref().to_uppercase());
    assert_eq!("MICROSERVICES", value.unwrap());
}

#[test]
fn get_value_for_an_existing_key() {
    let mut cached = test_cache();

    cached.put("topic", "microservices").unwrap();

    assert_eq!(Some("microservices"), cached.get(&"topic", NOW));
}

#[test]
fn get_value_for_an_existing_key_and_map_it() {
    let mut cached = test_cache();

    cached.put("topic", "microservices").unwrap();

    let value = cached.map_get(&"topic", NOW, |value: Value| value.to_uppercase());
    assert_eq!("MICROSERVICES", value.unwrap());
}

#[test]
fn get_value_for_a_non_existing_key() {
    let mut cached = test_cache();

    let value = cached.get(&"non-existing", NOW);
    assert_eq!(None, value);
}

#[test]
fn get_value_for_a_non_existing_key_and_attempt_to_map_it() {
    let mut cached = test_cache();

    let value = cached.map_get(&"topic", NOW, |value: Value| value.to_uppercase());
    assert_eq!(None, value);
}

#[derive(Eq, PartialEq, Debug)]
struct Name {
    first: String,
    last: String,
}

#[test]
fn get_value_ref_for_an_existing_key_if_value_is_not_cloneable() {
    let mut cached: CacheD<Key, Name, Hasher, fn(&Key, &Name, bool) -> i64> = CacheD::new(
        Config::new(100, 10, 1000),
        hash_of as Hasher,
        (|_key: &Key, _value: &Name, _has_ttl: bool| 50) as fn(&Key, &Name, bool) -> i64,
        NOW,
    );

    cached.put("name", Name { first: "John".to_string(), last: "Mcnamara".to_string() }).unwrap();

    let value = cached.get_ref(&"name", NOW);
    assert_eq!(&Name { first: "John".to_string(), last: "Mcnamara".to_string() }, value.unwrap().value_ref());
}

#[test]
fn delete_a_key() {
    let mut cached = test_cache();

    cached.put("topic", "microservices").unwrap();
    let key_id = key_id_of(&mut cached, "topic");

    assert_eq!(Ok(CommandStatus::Accepted), cached.delete("topic"));

    assert_eq!(None, cached.get(&"topic", NOW));
    assert!(!cached.admission_policy().contains(key_id));
}

#[test]
fn get_access_frequency() {
    let mut cached = cache_with(Config { access_pool_size: 1, access_buffer_size: 3, ..Config::new(10, 10, 1000) });

    cached.put("topic", "microservices").unwrap();
    cached.put("disk", "SSD").unwrap();

    cached.get(&"topic", NOW);
    cached.get(&"disk", NOW);
    cached.get(&"topic", NOW);
    cached.get(&"disk", NOW);

    let policy = cached.admission_policy();
    assert_eq!(2, policy.estimate(hash_of(&"topic")));
    assert_eq!(1, policy.estimate(hash_of(&"disk")));
}

#[test]
fn get_multiple_keys() {
    let mut cached = cache_with(Config::new(100, 10, 1000));

    cached.put("topic", "microservices").unwrap();
    cached.put("disk", "SSD").unwrap();
    cached.put("cache", "in-memory").unwrap();

    let values = cached.multi_get(&vec!["topic", "non-existing", "cache", "disk"], NOW);

    assert_eq!(Some("microservices"), values[0]);
    assert_eq!(None, values[1]);
    assert_eq!(Some("in-memory"), values[2]);
    assert_eq!(Some("SSD"), values[3]);
}

#[test]
fn total_weight_used() {
    let mut cached = test_cache();

    cached.put_with_weight("topic", "microservices", 50).unwrap();

    assert_eq!(50, cached.total_weight_used());
}

#[test]
fn put_after_shutdown() {
    let mut cached = test_cache();
    cached.shutdown();

    let put_result = cached.put("storage", "cached");
    assert!(put_result.is_err());
}

#[test]
fn put_with_weight_after_shutdown() {
    let mut cached = test_cache();
    cached.shutdown();

    let put_result = cached.put_with_weight("storage", "cached", 10);
    assert!(put_result.is_err());
}

#[test]
fn put_with_ttl_after_shutdown() {
    let mut cached = test_cache();
    cached.shutdown();

    let put_result = cached.put_with_ttl("storage", "cached", 5_000, NOW);
    assert!(put_result.is_err());
}

#[test]
fn put_with_weight_and_ttl_after_shutdown() {
    let mut cached = test_cache();
    cached.shutdown();

    let put_result = cached.put_with_weight_and_ttl("storage", "cached", 10, 5_000, NOW);
    assert!(put_result.is_err());
}

#[test]
fn delete_after_shutdown() {
    let mut cached = test_cache();
    cached.shutdown();

    let delete_result = cached.delete("storage");
    assert!(delete_result.is_err());
}

#[test]
fn upsert_after_shutdown() {
    let mut cached = test_cache();
    cached.shutdown();

    let upsert_result = cached.upsert(UpsertRequestBuilder::new("storage").weight(10).build(), NOW);
    assert!(upsert_result.is_err());
}

#[test]
fn get_after_shutdown() {
    let mut cached = test_cache();
    cached.put("storage", "cached").unwrap();
    cached.shutdown();

    assert_eq!(None, cached.get(&"storage", NOW));
}

#[test]
fn get_ref_after_shutdown() {
    let mut cached = test_cache();
    cached.put("storage", "cached").unwrap();
    cached.shutdown();

    assert!(cached.get_ref(&"storage", NOW).is_none());
}

#[test]
fn map_get_after_shutdown() {
    let mut cached = test_cache();
    cached.put("storage", "cached").unwrap();
    cached.shutdown();

    assert!(cached.map_get(&"storage", NOW, |value: Value| value.to_uppercase()).is_none());
}

#[test]
fn map_get_ref_after_shutdown() {
    let mut cached = test_cache();
    cached.put("storage", "cached").unwrap();
    cached.shutdown();

    let result = cached.map_get_ref(&"storage", NOW, |stored_value: &StoredValue<Value>| stored_value.value_ref().to_uppercase());
    assert!(result.is_none());
}

#[test]
fn multi_get_after_shutdown() {
    let mut cached = test_cache();
    cached.put("storage", "cached").unwrap();
    cached.put("topic", "microservices").unwrap();
    cached.shutdown();

    assert!(cached.multi_get(&vec!["storage", "topic"], NOW).is_empty());
}

#[test]
fn shutdown() {
    let mut cached = test_cache();

    cached.put_with_weight("topic", "microservices", 50).unwrap();
    cached.put("cache", "cached").unwrap();

    cached.shutdown();
    assert!(cached.is_shutting_down());

    assert_eq!(Err(CommandSendError::Shutdown), cached.put("storage", "cached"));
    assert_eq!(0, cached.total_weight_used());
    assert_eq!(None, cached.get(&"topic", NOW));
    assert_eq!(None, cached.get(&"cache", NOW));
}

#[test]
fn shutdown_twice_changes_nothing_more() {
    let mut cached = test_cache();
    cached.put_with_weight("topic", "microservices", 50).unwrap();

    cached.shutdown();
    cached.shutdown();

    assert!(cached.is_shutting_down());
    assert_eq!(0, cached.total_weight_used());
    assert_eq!(Err(CommandSendError::Shutdown), cached.delete("topic"));
}

#[test]
fn put_then_get_returns_the_value() {
    let mut cached = test_cache();

    assert_eq!(Ok(CommandStatus::Accepted), cached.put_with_weight("k", "v", 10));
    assert_eq!(Some("v"), cached.get(&"k", NOW));
}

#[test]
fn put_delete_then_get_returns_nothing() {
    let mut cached = test_cache();

    cached.put_with_weight("k", "v", 10).unwrap();
    cached.delete("k").unwrap();
    assert_eq!(None, cached.get(&"k", NOW));
}

#[test]
fn delete_of_an_absent_key_is_rejected() {
    let mut cached = test_cache();
    cached.put_with_weight("other", "v", 10).unwrap();

    assert_eq!(Ok(CommandStatus::Rejected), cached.delete("k"));
    assert_eq!(10, cached.total_weight_used());
    assert_eq!(Some("v"), cached.get(&"other", NOW));
}

#[test]
fn weight_driven_rejection() {
    let mut cached = test_cache();

    assert_eq!(Ok(CommandStatus::Accepted), cached.put_with_weight("a", "1", 50));
    assert_eq!(Ok(CommandStatus::Accepted), cached.put_with_weight("b", "2", 50));
    assert_eq!(Ok(CommandStatus::Rejected), cached.put_with_weight("c", "3", 50));

    assert_eq!(100, cached.total_weight_used());
    assert_eq!(None, cached.get(&"c", NOW));
}

#[test]
fn weight_above_the_budget_is_rejected() {
    let mut cached = test_cache();

    assert_eq!(Ok(CommandStatus::Rejected), cached.put_with_weight("topic", "microservices", 200));
    assert_eq!(None, cached.get(&"topic", NOW));
    assert_eq!(0, cached.total_weight_used());
}

#[test]
fn a_more_frequent_candidate_evicts_a_victim() {
    let mut cached = cache_with(Config { access_pool_size: 1, access_buffer_size: 2, ..Config::new(100, 10, 100) });

    cached.put_with_weight("cold", "1", 60).unwrap();
    cached.put_with_weight("hot", "2", 30).unwrap();
    cached.get(&"hot", NOW);
    cached.get(&"hot", NOW);
    cached.delete("hot").unwrap();

    assert_eq!(Ok(CommandStatus::Accepted), cached.put_with_weight("hot", "3", 50));
    assert_eq!(None, cached.get(&"cold", NOW));
    assert_eq!(Some("3"), cached.get(&"hot", NOW));
    assert_eq!(50, cached.total_weight_used());
}

#[test]
fn successive_writes_get_increasing_ids() {
    let mut cached = test_cache();

    cached.put_with_weight("a", "1", 10).unwrap();
    cached.put_with_weight("b", "2", 10).unwrap();
    cached.put_with_weight("a", "3", 10).unwrap();

    let first = key_id_of(&mut cached, "b");
    let second = key_id_of(&mut cached, "a");
    assert!(first < second);
}

#[test]
fn overwriting_a_key_keeps_one_entry() {
    let mut cached = test_cache();

    cached.put_with_weight("a", "1", 30).unwrap();
    let first = key_id_of(&mut cached, "a");
    cached.put_with_weight("a", "2", 40).unwrap();

    assert_eq!(Some("2"), cached.get(&"a", NOW));
    assert_eq!(40, cached.total_weight_used());
    assert!(!cached.admission_policy().contains(first));
}

#[test]
fn upsert_a_non_existing_key_value() {
    let mut cached = test_cache();

    cached.upsert(UpsertRequestBuilder::new("topic").value("microservices").build(), NOW).unwrap();

    let stored_value = cached.get_ref(&"topic", NOW).unwrap().clone();
    assert_eq!("microservices", stored_value.value());
}

#[test]
fn upsert_a_non_existing_key_value_with_weight() {
    let mut cached = test_cache();

    cached.upsert(UpsertRequestBuilder::new("topic").value("microservices").weight(33).build(), NOW).unwrap();

    let stored_value = cached.get_ref(&"topic", NOW).unwrap().clone();
    assert_eq!("microservices", stored_value.value());
    assert_eq!(Some(33), weight_in_policy(&mut cached, "topic"));
}

#[test]
fn upsert_a_non_existing_key_value_with_time_to_live() {
    let mut cached = test_cache();

    cached.upsert(UpsertRequestBuilder::new("topic").value("microservices").time_to_live(10_000).build(), NOW).unwrap();

    let stored_value = cached.get_ref(&"topic", NOW).unwrap().clone();
    assert_eq!(Some(NOW + 10_000), stored_value.expire_after());
    assert_eq!("microservices", stored_value.value());
}

#[test]
fn update_the_value_of_an_existing_key() {
    let mut cached = test_cache();

    cached.put("topic", "microservices").unwrap();
    cached.upsert(UpsertRequestBuilder::new("topic").value("storage engine").build(), NOW).unwrap();

    let stored_value = cached.get_ref(&"topic", NOW).unwrap().clone();
    assert_eq!("storage engine", stored_value.value());
}

#[test]
fn update_the_weight_of_an_existing_key() {
    let mut cached = test_cache();

    cached.put("topic", "microservices").unwrap();
    cached.upsert(UpsertRequestBuilder::new("topic").weight(29).build(), NOW).unwrap();

    let stored_value = cached.get_ref(&"topic", NOW).unwrap().clone();
    assert_eq!("microservices", stored_value.value());
    assert_eq!(Some(29), weight_in_policy(&mut cached, "topic"));
}

#[test]
fn update_the_time_to_live_of_an_existing_key_with_original_key_not_having_time_to_live() {
    let mut cached = test_cache();

    cached.put("topic", "microservices").unwrap();
    let weight_before = weight_in_policy(&mut cached, "topic");

    cached.upsert(UpsertRequestBuilder::new("topic").time_to_live(100_000).build(), NOW).unwrap();

    let stored_value = cached.get_ref(&"topic", NOW).unwrap().clone();
    let key_id = stored_value.key_id();
    assert_eq!("microservices", stored_value.value());
    assert_ne!(weight_before, cached.admission_policy().weight_of(key_id));
    assert_eq!(Some(NOW + 100_000), stored_value.expire_after());
    assert_eq!(stored_value.expire_after(), cached.ttl_ticker().get(key_id, stored_value.expire_after().unwrap()));
}

#[test]
fn remove_the_time_to_live_of_an_existing_key() {
    let mut cached = test_cache();

    cached.put_with_ttl("topic", "microservices", 100_000, NOW).unwrap();
    let weight_before = weight_in_policy(&mut cached, "topic");

    cached.upsert(UpsertRequestBuilder::new("topic").remove_time_to_live().build(), NOW).unwrap();

    let stored_value = cached.get_ref(&"topic", NOW).unwrap().clone();
    let key_id = stored_value.key_id();
    assert_eq!("microservices", stored_value.value());
    assert_ne!(weight_before, cached.admission_policy().weight_of(key_id));
    assert_eq!(None, stored_value.expire_after());
}

#[test]
fn add_the_time_to_live_of_an_existing_key() {
    let mut cached = test_cache();

    cached.put("topic", "microservices").unwrap();
    let weight_before = weight_in_policy(&mut cached, "topic");

    cached.upsert(UpsertRequestBuilder::new("topic").time_to_live(120_000).build(), NOW).unwrap();

    let stored_value = cached.get_ref(&"topic", NOW).unwrap().clone();
    let key_id = stored_value.key_id();
    assert_eq!("microservices", stored_value.value());
    assert_ne!(weight_before, cached.admission_policy().weight_of(key_id));
    assert_eq!(Some(NOW + 120_000), stored_value.expire_after());
    assert_eq!(stored_value.expire_after(), cached.ttl_ticker().get(key_id, stored_value.expire_after().unwrap()));
}

#[test]
fn update_the_value_and_time_to_live_of_an_existing_key() {
    let mut cached = test_cache();

    cached.put("topic", "microservices").unwrap();
    let weight_before = weight_in_policy(&mut cached, "topic");

    cached.upsert(UpsertRequestBuilder::new("topic").value("storage engine").time_to_live(100_000).build(), NOW).unwrap();

    let stored_value = cached.get_ref(&"topic", NOW).unwrap().clone();
    let key_id = stored_value.key_id();
    assert_eq!("storage engine", stored_value.value());
    assert_ne!(weight_before, cached.admission_policy().weight_of(key_id));
    assert_eq!(Some(NOW + 100_000), stored_value.expire_after());
    assert_eq!(stored_value.expire_after(), cached.ttl_ticker().get(key_id, stored_value.expire_after().unwrap()));
}

#[test]
fn update_the_value_and_remove_time_to_live_of_an_existing_key() {
    let mut cached = test_cache();

    cached.put_with_ttl("topic", "microservices", 100_000, NOW).unwrap();
    let weight_before = weight_in_policy(&mut cached, "topic");

    cached.upsert(UpsertRequestBuilder::new("topic").value("storage engine").remove_time_to_live().build(), NOW).unwrap();

    let stored_value = cached.get_ref(&"topic", NOW).unwrap().clone();
    let key_id = stored_value.key_id();
    let new_weight = cached.admission_policy().weight_of(key_id);
    assert_eq!("storage engine", stored_value.value());
    assert_ne!(weight_before, new_weight);
    assert!(new_weight < weight_before);
    assert_eq!(None, stored_value.expire_after());
}

#[test]
fn update_the_value_weight_and_remove_time_to_live_of_an_existing_key() {
    let mut cached = test_cache();

    cached.put_with_ttl("topic", "microservices", 100_000, NOW).unwrap();
    let weight_before = weight_in_policy(&mut cached, "topic");

    let status = cached.upsert(UpsertRequestBuilder::new("topic").value("storage engine").weight(300).remove_time_to_live().build(), NOW);

    let stored_value = cached.get_ref(&"topic", NOW).unwrap().clone();
    let key_id = stored_value.key_id();
    let new_weight = cached.admission_policy().weight_of(key_id);
    assert_eq!("storage engine", stored_value.value());
    assert_eq!(Ok(CommandStatus::Rejected), status);
    assert_eq!(weight_before, new_weight);
    assert!(cached.total_weight_used() <= 100);
    assert_eq!(None, stored_value.expire_after());
}

#[test]
fn update_the_time_to_live_of_an_existing_key() {
    let mut cached = test_cache();

    cached.put_with_ttl("topic", "microservices", 100_000, NOW).unwrap();
    let weight_before = weight_in_policy(&mut cached, "topic");

    cached.upsert(UpsertRequestBuilder::new("topic").time_to_live(500_000).build(), NOW).unwrap();

    let stored_value = cached.get_ref(&"topic", NOW).unwrap().clone();
    let key_id = stored_value.key_id();
    assert_eq!("microservices", stored_value.value());
    assert_eq!(weight_before, cached.admission_policy().weight_of(key_id));
    assert_eq!(Some(NOW + 500_000), stored_value.expire_after());
}

#[test]
fn upsert_transitions_move_the_weight_by_a_ticker_entry() {
    let mut cached = test_cache();

    cached.put_with_weight("k", "v", 20).unwrap();

    cached.upsert(UpsertRequestBuilder::new("k").time_to_live(100_000).build(), NOW).unwrap();
    assert_eq!(Some("v"), cached.get(&"k", NOW));
    assert_eq!(Some(NOW + 100_000), cached.get_ref(&"k", NOW).unwrap().expire_after());
    assert_eq!(20 + TTL_TICKER_ENTRY_SIZE, cached.total_weight_used());

    cached.upsert(UpsertRequestBuilder::new("k").remove_time_to_live().build(), NOW).unwrap();
    assert_eq!(None, cached.get_ref(&"k", NOW).unwrap().expire_after());
    assert_eq!(20, cached.total_weight_used());
}

#[test]
fn expired_entries_read_as_absent_before_the_scan() {
    let mut cached = test_cache();

    cached.put_with_weight_and_ttl("k", "v", 10, 1_000, NOW).unwrap();
    assert_eq!(Some("v"), cached.get(&"k", 999));
    assert_eq!(None, cached.get(&"k", 1_000));
    assert_eq!(10, cached.total_weight_used());

    cached.expire(1_500);
    assert_eq!(0, cached.total_weight_used());
}

#[test]
fn a_rejected_put_keeps_the_existing_entry() {
    let mut cached = test_cache();

    cached.put_with_weight("topic", "microservices", 50).unwrap();
    assert_eq!(Ok(CommandStatus::Rejected), cached.put_with_weight("topic", "storage", 200));

    assert_eq!(Some("microservices"), cached.get(&"topic", NOW));
    assert_eq!(50, cached.total_weight_used());
}

#[test]
fn an_accepted_put_replaces_the_existing_entry() {
    let mut cached = test_cache();

    cached.put_with_weight_and_ttl("topic", "microservices", 50, 10_000, NOW).unwrap();
    let first = key_id_of(&mut cached, "topic");
    assert_eq!(Ok(CommandStatus::Accepted), cached.put_with_weight("topic", "storage", 40));

    assert_eq!(Some("storage"), cached.get(&"topic", NOW));
    assert_eq!(40, cached.total_weight_used());
    assert!(!cached.admission_policy().contains(first));
    assert_eq!(None, cached.ttl_ticker().get(first, NOW + 10_000));
}

#[test]
fn delete_drops_the_ticker_registration() {
    let mut cached = test_cache();

    cached.put_with_weight_and_ttl("topic", "microservices", 50, 10_000, NOW).unwrap();
    let key_id = key_id_of(&mut cached, "topic");
    assert_eq!(Some(NOW + 10_000), cached.ttl_ticker().get(key_id, NOW + 10_000));

    cached.delete("topic").unwrap();

    assert_eq!(None, cached.ttl_ticker().get(key_id, NOW + 10_000));
    assert_eq!(0, cached.total_weight_used());
}

#[test]
fn upsert_moves_the_ticker_registration() {
    let mut cached = test_cache();

    cached.put_with_weight_and_ttl("topic", "microservices", 50, 10_000, NOW).unwrap();
    let key_id = key_id_of(&mut cached, "topic");

    cached.upsert(UpsertRequestBuilder::new("topic").time_to_live(20_000).build(), NOW).unwrap();

    assert_eq!(None, cached.ttl_ticker().get(key_id, NOW + 10_000));
    assert_eq!(Some(NOW + 20_000), cached.ttl_ticker().get(key_id, NOW + 20_000));
}

#[test]
fn upsert_weight_within_the_budget_is_accepted() {
    let mut cached = test_cache();

    cached.put_with_weight("topic", "microservices", 50).unwrap();
    assert_eq!(Ok(CommandStatus::Accepted), cached.upsert(UpsertRequestBuilder::new("topic").weight(90).build(), NOW));

    assert_eq!(90, cached.total_weight_used());
}

#[test]
fn get_ref_records_the_read() {
    let mut cached = cache_with(Config { access_pool_size: 1, access_buffer_size: 2, ..Config::new(10, 10, 1000) });

    cached.put("topic", "microservices").unwrap();
    cached.get_ref(&"topic", NOW);
    cached.get_ref(&"topic", NOW);

    assert_eq!(2, cached.admission_policy().estimate(hash_of(&"topic")));
}
