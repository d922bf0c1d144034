use cached::expiration::TtlTicker;

#[test]
fn registrations_are_found_and_removed() {
    let mut ticker = TtlTicker::new(0, 4);

    ticker.put(1, 1_500);
    assert_eq!(Some(1_500), ticker.get(1, 1_500));
    assert_eq!(None, ticker.get(1, 1_600));

    ticker.delete(1, 1_500);
    assert_eq!(None, ticker.get(1, 1_500));
}

#[test]
fn update_moves_a_registration() {
    let mut ticker = TtlTicker::new(0, 4);

    ticker.put(1, 1_500);
    ticker.update(1, 1_500, 9_000);

    assert_eq!(None, ticker.get(1, 1_500));
    assert_eq!(Some(9_000), ticker.get(1, 9_000));
}

#[test]
fn a_scan_drains_only_what_is_due() {
    let mut ticker = TtlTicker::new(0, 4);
    ticker.put(1, 500);
    ticker.put(2, 1_200);
    ticker.put(3, 1_900);
    ticker.put(4, 7_000);

    let drained = ticker.expire(1_500);
    let mut ids: Vec<u64> = drained.iter().map(|e| e.key_id).collect();
    ids.sort();

    assert_eq!(vec![1, 2], ids);
    assert_eq!(Some(1_900), ticker.get(3, 1_900));
    assert_eq!(Some(7_000), ticker.get(4, 7_000));

    let drained = ticker.expire(2_000);
    assert_eq!(1, drained.len());
    assert_eq!(3, drained[0].key_id);
}

#[test]
fn clear_drops_every_registration() {
    let mut ticker = TtlTicker::new(0, 4);
    ticker.put(1, 500);

    ticker.clear();

    assert_eq!(None, ticker.get(1, 500));
}

#[test]
fn a_scan_drains_every_shard() {
    let mut ticker = TtlTicker::new(0, 4);
    for key_id in 0..8u64 {
        ticker.put(key_id, 1_000 + key_id);
    }

    let drained = ticker.expire(5_000);

    assert_eq!(8, drained.len());
    for key_id in 0..8u64 {
        assert_eq!(None, ticker.get(key_id, 1_000 + key_id));
    }
}
