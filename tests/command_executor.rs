use cached::command::{CommandExecutor, CommandType};
use cached::key_description::KeyDescription;
use cached::types::CommandStatus;

const NOW: u64 = 1_000_000;

fn executor() -> CommandExecutor<&'static str, &'static str> {
    CommandExecutor::new(10, 100, 4, NOW)
}

#[test]
fn command_executor_puts_a_key_value() {
    let mut command_executor = executor();

    let status = command_executor.apply(CommandType::Put(KeyDescription::new("topic", 1, 1029, 10), "microservices"), NOW);

    assert_eq!(CommandStatus::Accepted, status);
    assert_eq!("microservices", command_executor.get_ref(&"topic", NOW).unwrap().value());
    assert!(command_executor.policy_ref().contains(1));
}

#[test]
fn key_value_gets_rejected_given_its_weight_is_more_than_the_cache_weight() {
    let mut command_executor = executor();

    let status = command_executor.apply(CommandType::Put(KeyDescription::new("topic", 1, 1029, 200), "microservices"), NOW);

    assert!(command_executor.get_ref(&"topic", NOW).is_none());
    assert_eq!(CommandStatus::Rejected, status);
}

#[test]
fn puts_a_couple_of_key_values() {
    let mut command_executor = executor();

    command_executor.apply(CommandType::Put(KeyDescription::new("topic", 1, 1029, 10), "microservices"), NOW);
    command_executor.apply(CommandType::Put(KeyDescription::new("disk", 2, 2076, 3), "SSD"), NOW);

    assert_eq!("microservices", command_executor.get_ref(&"topic", NOW).unwrap().value());
    assert_eq!("SSD", command_executor.get_ref(&"disk", NOW).unwrap().value());
}

#[test]
fn puts_a_key_value_with_ttl() {
    let mut command_executor = executor();

    command_executor.apply(CommandType::PutWithTTL(KeyDescription::new("topic", 1, 1029, 10), "microservices", 10_000), NOW);

    let stored = command_executor.get_ref(&"topic", NOW).unwrap();
    assert_eq!("microservices", stored.value());
    let expiry = stored.expire_after().unwrap();
    assert_eq!(NOW + 10_000, expiry);
    assert_eq!(Some(expiry), command_executor.ticker_ref().get(1, expiry));
}

#[test]
fn command_executor_deletes_a_key() {
    let mut command_executor = executor();

    command_executor.apply(CommandType::PutWithTTL(KeyDescription::new("topic", 10, 1029, 10), "microservices", 10_000), NOW);
    let expiry = command_executor.get_ref(&"topic", NOW).unwrap().expire_after().unwrap();
    assert_eq!(Some(expiry), command_executor.ticker_ref().get(10, expiry));

    let status = command_executor.apply(CommandType::Delete("topic"), NOW);

    assert_eq!(CommandStatus::Accepted, status);
    assert!(command_executor.get_ref(&"topic", NOW).is_none());
    assert_eq!(None, command_executor.ticker_ref().get(10, expiry));
    assert!(!command_executor.policy_ref().contains(10));
}

#[test]
fn deletion_of_a_non_existing_key_value_gets_rejected() {
    let mut command_executor = executor();

    let status = command_executor.apply(CommandType::Delete("non-existing"), NOW);

    assert_eq!(CommandStatus::Rejected, status);
}

#[test]
fn updates_the_weight_of_an_existing_key() {
    let mut command_executor = executor();

    command_executor.apply(CommandType::Put(KeyDescription::new("topic", 1, 1029, 50), "microservices"), NOW);
    let status = command_executor.apply(CommandType::UpdateWeight(1, 70), NOW);

    assert_eq!(CommandStatus::Accepted, status);
    assert_eq!(Some(70), command_executor.policy_ref().weight_of(1));
    assert_eq!(70, command_executor.policy_ref().weight_used());
}

#[test]
fn updates_the_weight_of_a_non_existing_key() {
    let mut command_executor = executor();

    let status = command_executor.apply(CommandType::UpdateWeight(1, 70), NOW);

    assert_eq!(CommandStatus::Rejected, status);
}

#[test]
fn puts_a_key_value_by_eliminating_a_less_frequent_victim() {
    let mut command_executor = CommandExecutor::new(10, 10, 4, NOW);
    command_executor.record_accesses(&vec![14, 14, 14]);

    let status = command_executor.apply(CommandType::Put(KeyDescription::new("topic", 1, 10, 5), "microservices"), NOW);
    assert_eq!(CommandStatus::Accepted, status);

    let status = command_executor.apply(CommandType::Put(KeyDescription::new("disk", 2, 14, 6), "SSD"), NOW);
    assert_eq!(CommandStatus::Accepted, status);

    assert!(command_executor.policy_ref().contains(2));
    assert_eq!("SSD", command_executor.get_ref(&"disk", NOW).unwrap().value());
    assert!(!command_executor.policy_ref().contains(1));
    assert!(command_executor.get_ref(&"topic", NOW).is_none());
}

#[test]
fn a_candidate_no_more_frequent_than_its_victim_is_rejected() {
    let mut command_executor = CommandExecutor::new(10, 10, 4, NOW);

    command_executor.apply(CommandType::Put(KeyDescription::new("topic", 1, 10, 5), "microservices"), NOW);
    let status = command_executor.apply(CommandType::Put(KeyDescription::new("disk", 2, 14, 6), "SSD"), NOW);

    assert_eq!(CommandStatus::Rejected, status);
    assert!(command_executor.policy_ref().contains(1));
    assert!(command_executor.get_ref(&"disk", NOW).is_none());
}

#[test]
fn expired_keys_leave_the_store_and_the_policy() {
    let mut command_executor = executor();

    command_executor.apply(CommandType::PutWithTTL(KeyDescription::new("short", 1, 1, 10), "a", 500), NOW);
    command_executor.apply(CommandType::PutWithTTL(KeyDescription::new("long", 2, 2, 10), "b", 5_000), NOW);
    command_executor.apply(CommandType::Put(KeyDescription::new("forever", 3, 3, 10), "c"), NOW);

    command_executor.expire(NOW + 1_000);

    assert!(command_executor.get_ref(&"short", NOW).is_none());
    assert!(!command_executor.policy_ref().contains(1));
    assert_eq!("b", command_executor.get_ref(&"long", NOW).unwrap().value());
    assert_eq!("c", command_executor.get_ref(&"forever", NOW).unwrap().value());
    assert_eq!(20, command_executor.policy_ref().weight_used());
}
