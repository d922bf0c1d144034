use cached::upsert::UpsertRequestBuilder;

#[test]
fn upsert_request_with_key_value() {
    let upsert_request = UpsertRequestBuilder::new("topic").value("microservices").build();

    assert_eq!("topic", upsert_request.key);
    assert_eq!(Some("microservices"), upsert_request.value);
}

#[test]
fn upsert_request_with_weight() {
    let upsert_request = UpsertRequestBuilder::new("topic").value("microservices").weight(10).build();

    assert_eq!(Some(10), upsert_request.weight);
}

#[test]
fn upsert_request_with_time_to_live() {
    let upsert_request = UpsertRequestBuilder::new("topic").value("microservices").time_to_live(10_000).build();

    assert_eq!(Some(10_000), upsert_request.time_to_live);
}

#[test]
fn upsert_request_remove_time_to_live() {
    let upsert_request = UpsertRequestBuilder::new("topic").value("microservices").remove_time_to_live().build();

    assert!(upsert_request.remove_time_to_live);
}

#[test]
fn updated_weight_if_weight_is_provided() {
    let upsert_request = UpsertRequestBuilder::<&str, &str>::new("topic").weight(10).build();
    let weight_calculation_fn = Box::new(|_key: &&str, _value: &&str| 100);

    assert_eq!(Some(10), upsert_request.updated_weight(&weight_calculation_fn));
}

#[test]
fn updated_weight_if_value_is_provided() {
    let upsert_request = UpsertRequestBuilder::new("topic").value("cached").build();
    let weight_calculation_fn = Box::new(|_key: &&str, value: &&str| value.len() as i64);

    assert_eq!(Some(6), upsert_request.updated_weight(&weight_calculation_fn));
}

#[test]
fn updated_weight_if_weight_and_value_is_provided() {
    let upsert_request = UpsertRequestBuilder::new("topic").value("cached").weight(22).build();
    let weight_calculation_fn = Box::new(|_key: &&str, value: &&str| value.len() as i64);

    assert_eq!(Some(22), upsert_request.updated_weight(&weight_calculation_fn));
}

#[test]
fn updated_weight_if_neither_weight_nor_value_is_provided() {
    let upsert_request = UpsertRequestBuilder::<&str, &str>::new("topic").remove_time_to_live().build();
    let weight_calculation_fn = Box::new(|_key: &&str, value: &&str| value.len() as i64);

    assert_eq!(None, upsert_request.updated_weight(&weight_calculation_fn));
}

#[test]
fn upsert_request_defaults() {
    let upsert_request = UpsertRequestBuilder::<&str, &str>::new("topic").build();

    assert_eq!(None, upsert_request.value);
    assert_eq!(None, upsert_request.weight);
    assert_eq!(None, upsert_request.time_to_live);
    assert!(!upsert_request.remove_time_to_live);
}
