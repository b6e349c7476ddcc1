use striped_counter::{Adder, AdderError, Stripe, CACHE_LINE_BYTES};

#[test]
fn boundary_single_increment() {
    let mut a = Adder::new(1).unwrap();
    assert_eq!(a.increment(0), Ok(()));
    assert_eq!(a.sum(), 1);
}

#[test]
fn zero_lanes_invalid_configuration() {
    let r = Adder::new(0);
    assert!(matches!(r, Err(AdderError::InvalidConfiguration)));
}

#[test]
fn index_at_lane_count_out_of_bounds() {
    let mut a = Adder::new(4).unwrap();
    assert_eq!(a.increment(4), Err(AdderError::IndexOutOfBounds));
    assert_eq!(a.sum(), 0);
}

#[test]
fn fresh_counter_sums_to_zero() {
    let a = Adder::new(3).unwrap();
    assert_eq!(a.lane_count(), 3);
    assert_eq!(a.sum(), 0);
    for i in 0..3 {
        assert_eq!(a.lane_value(i), Some(0));
    }
}

#[test]
fn exact_count_across_lanes() {
    let mut a = Adder::new(3).unwrap();
    let lanes = [0, 2, 1, 2, 2, 0, 1];
    for &lane in lanes.iter() {
        assert_eq!(a.increment(lane), Ok(()));
    }
    assert_eq!(a.sum(), 7);
}

#[test]
fn sum_is_monotonic_under_increments() {
    let mut a = Adder::new(2).unwrap();
    let before = a.sum();
    a.increment(0).unwrap();
    let mid = a.sum();
    a.increment(1).unwrap();
    a.increment(1).unwrap();
    let after = a.sum();
    assert!(before <= mid);
    assert!(mid <= after);
}

#[test]
fn sum_bounded_by_in_flight_increments() {
    let mut a = Adder::new(2).unwrap();
    a.increment(0).unwrap();
    a.increment(1).unwrap();
    let total_before = a.sum();
    let in_flight = 2;
    a.increment(0).unwrap();
    a.increment(1).unwrap();
    let observed = a.sum();
    assert!(total_before <= observed);
    assert!(observed <= total_before + in_flight);
}

#[test]
fn stripe_fills_a_cache_line() {
    // In a contiguous sequence of stripes the distance between one counter
    // and the next equals the stripe size, so a full-line stripe keeps every
    // counter on its own cache line.
    assert_eq!(std::mem::size_of::<Stripe>(), CACHE_LINE_BYTES);
    assert!(std::mem::size_of::<Stripe>() >= std::mem::size_of::<usize>());
}

#[test]
fn four_workers_three_each() {
    let mut a = Adder::new(4).unwrap();
    for _round in 0..3 {
        for lane in 0..4 {
            a.increment(lane).unwrap();
        }
    }
    assert_eq!(a.sum(), 12);
    for lane in 0..4 {
        assert_eq!(a.lane_value(lane), Some(3));
    }
}

#[test]
fn lane_value_past_count_is_none() {
    let a = Adder::new(2).unwrap();
    assert_eq!(a.lane_value(2), None);
    assert_eq!(a.lane_value(usize::MAX), None);
}

#[test]
fn untouched_lanes_keep_their_values() {
    let mut a = Adder::new(3).unwrap();
    a.increment(1).unwrap();
    a.increment(1).unwrap();
    assert_eq!(a.lane_value(0), Some(0));
    assert_eq!(a.lane_value(1), Some(2));
    assert_eq!(a.lane_value(2), Some(0));
}
