use cached::pool::Pool;

#[test]
fn a_full_buffer_is_handed_back_in_order() {
    let mut pool = Pool::new(1, 3);

    assert_eq!(None, pool.add(10));
    assert_eq!(None, pool.add(20));
    assert_eq!(Some(vec![10, 20, 30]), pool.add(30));
    assert_eq!(None, pool.add(40));
}

#[test]
fn stripes_fill_independently() {
    let mut pool = Pool::new(2, 2);

    assert_eq!(None, pool.add(1));
    assert_eq!(None, pool.add(2));
    assert_eq!(Some(vec![1, 3]), pool.add(3));
    assert_eq!(Some(vec![2, 4]), pool.add(4));
}
