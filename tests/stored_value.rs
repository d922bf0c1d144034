use cached::stored_value::StoredValue;

#[test]
fn expiration_time() {
    let epoch: u64 = 0;
    let stored_value = StoredValue::expiring("SSD", 1, 10_000, epoch);

    assert_eq!(Some(epoch + 10_000), stored_value.expire_after());
}

#[test]
fn stored_value_is_alive() {
    let stored_value = StoredValue::never_expiring("storage-engine", 1);

    assert!(stored_value.is_alive(1_700_000_000_000));
}

#[test]
fn stored_value_is_not_alive() {
    let now: u64 = 1_700_000_000_000;
    let stored_value = StoredValue::expiring("storage-engine", 1, 5_000, now);

    let ten_seconds_later = now + 10_000;
    assert!(!stored_value.is_alive(ten_seconds_later));
}

#[test]
fn stored_value_is_alive_until_its_expiry() {
    let stored_value = StoredValue::expiring("storage-engine", 7, 5_000, 100);

    assert!(stored_value.is_alive(5_099));
    assert!(!stored_value.is_alive(5_100));
    assert_eq!(7, stored_value.key_id());
    assert_eq!(&"storage-engine", stored_value.value_ref());
    assert_eq!("storage-engine", stored_value.value());
}

#[test]
fn stored_value_keeps_identity_across_updates() {
    let stored_value = StoredValue::never_expiring("a", 3).with_value("b").with_expiry(Some(42));

    assert_eq!("b", stored_value.value());
    assert_eq!(3, stored_value.key_id());
    assert_eq!(Some(42), stored_value.expire_after());
}
