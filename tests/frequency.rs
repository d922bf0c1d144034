use cached::frequency::FrequencySketch;

#[test]
fn first_sighting_sets_only_the_doorkeeper() {
    let mut sketch = FrequencySketch::new(10, 100);

    sketch.increment(42);

    assert_eq!(1, sketch.estimate(42));
    assert_eq!(16, sketch.width());
}

#[test]
fn later_sightings_count_up() {
    let mut sketch = FrequencySketch::new(64, 1000);

    for _ in 0..4 {
        sketch.increment(7);
    }

    assert_eq!(4, sketch.estimate(7));
    assert_eq!(0, sketch.estimate(8));
}

#[test]
fn counters_saturate() {
    let mut sketch = FrequencySketch::new(64, 1000);

    for _ in 0..40 {
        sketch.increment(7);
    }

    assert_eq!(15, sketch.estimate(7));
}

#[test]
fn increments_never_lower_an_estimate() {
    let mut sketch = FrequencySketch::new(16, 1000);
    let hashes: Vec<u64> = (0..200u64).map(|i| i.wrapping_mul(0x9E37_79B9_7F4A_7C15)).collect();

    for h in &hashes {
        let before: Vec<u8> = hashes.iter().map(|x| sketch.estimate(*x)).collect();
        sketch.increment(*h);
        for (i, x) in hashes.iter().enumerate() {
            assert!(sketch.estimate(*x) >= before[i]);
        }
    }
}

#[test]
fn reset_halves_counters_and_clears_the_doorkeeper() {
    let mut sketch = FrequencySketch::new(64, 5);

    for _ in 0..5 {
        sketch.increment(7);
    }
    assert_eq!(5, sketch.estimate(7));
    assert!(sketch.reset_if_due());

    assert_eq!(2, sketch.estimate(7));
    assert_eq!(0, sketch.samples());
    assert!(!sketch.reset_if_due());
}
