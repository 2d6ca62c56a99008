use prime_sieve::markers::{
    cleared_markers, collect_marked, eliminate_multiples, fresh_markers, packed_markers,
};

#[test]
fn fresh_markers_for_bound_zero() {
    assert_eq!(fresh_markers(0), vec![false]);
}

#[test]
fn fresh_markers_for_bound_one() {
    assert_eq!(fresh_markers(1), vec![false, false]);
}

#[test]
fn fresh_markers_set_from_two_on() {
    assert_eq!(fresh_markers(5), vec![false, false, true, true, true, true]);
}

#[test]
fn packed_markers_for_the_smallest_bounds() {
    assert_eq!(packed_markers(0), vec![false]);
    assert_eq!(packed_markers(1), vec![false, false]);
    assert_eq!(packed_markers(2), vec![false, false, true]);
    assert_eq!(packed_markers(3), vec![false, false, true, true]);
}

#[test]
fn packed_markers_for_an_even_bound() {
    assert_eq!(
        packed_markers(8),
        vec![false, false, true, true, false, true, false, true, false]
    );
}

#[test]
fn packed_markers_for_an_odd_bound() {
    assert_eq!(
        packed_markers(9),
        vec![false, false, true, true, false, true, false, true, false, true]
    );
}

#[test]
fn cleared_markers_for_the_smallest_bounds() {
    assert_eq!(cleared_markers(0), vec![false]);
    assert_eq!(cleared_markers(1), vec![false, false]);
    assert_eq!(cleared_markers(2), vec![false, false, true]);
    assert_eq!(cleared_markers(4), vec![false, false, true, true, false]);
}

#[test]
fn both_ways_to_leave_out_the_even_numbers_agree() {
    let mut n: u64 = 0;
    while n <= 300 {
        let packed: Vec<bool> = packed_markers(n);
        assert_eq!(packed.len() as u64, n + 1);
        assert_eq!(packed, cleared_markers(n));
        n += 1;
    }
}

#[test]
fn eliminate_multiples_clears_a_stride() {
    let mut markers: Vec<bool> = vec![true; 10];
    eliminate_multiples(&mut markers, 4, 2);
    assert_eq!(
        markers,
        vec![true, true, true, true, false, true, false, true, false, true]
    );
}

#[test]
fn eliminate_multiples_from_a_square() {
    let mut markers: Vec<bool> = vec![true; 16];
    eliminate_multiples(&mut markers, 9, 3);
    let mut expected: Vec<bool> = vec![true; 16];
    expected[9] = false;
    expected[12] = false;
    expected[15] = false;
    assert_eq!(markers, expected);
}

#[test]
fn eliminate_multiples_keeps_cleared_flags_cleared() {
    let mut markers: Vec<bool> = vec![false, true, false, true, false, true];
    eliminate_multiples(&mut markers, 0, 3);
    assert_eq!(markers, vec![false, true, false, false, false, true]);
}

#[test]
fn eliminate_multiples_starting_beyond_the_end() {
    let mut markers: Vec<bool> = vec![true; 5];
    eliminate_multiples(&mut markers, 5, 1);
    assert_eq!(markers, vec![true; 5]);
    eliminate_multiples(&mut markers, 100, 7);
    assert_eq!(markers, vec![true; 5]);
}

#[test]
fn eliminate_multiples_with_one_point_in_reach() {
    let mut markers: Vec<bool> = vec![true; 5];
    eliminate_multiples(&mut markers, 4, 1);
    assert_eq!(markers, vec![true, true, true, true, false]);
    let mut wide: Vec<bool> = vec![true; 5];
    eliminate_multiples(&mut wide, 2, usize::MAX);
    assert_eq!(wide, vec![true, true, false, true, true]);
}

#[test]
fn eliminate_multiples_on_an_empty_array() {
    let mut markers: Vec<bool> = Vec::new();
    eliminate_multiples(&mut markers, 0, 1);
    assert!(markers.is_empty());
}

#[test]
fn collect_marked_appends_in_order() {
    let markers: Vec<bool> = vec![true, false, true, true, false, true];
    let mut found: Vec<u64> = vec![40, 41];
    collect_marked(&markers, 1, &mut found);
    assert_eq!(found, vec![40, 41, 2, 3, 5]);
}

#[test]
fn collect_marked_from_the_start() {
    let markers: Vec<bool> = vec![true, false, true];
    let mut found: Vec<u64> = Vec::new();
    collect_marked(&markers, 0, &mut found);
    assert_eq!(found, vec![0, 2]);
}

#[test]
fn collect_marked_from_beyond_the_end() {
    let markers: Vec<bool> = vec![true, true, true];
    let mut found: Vec<u64> = vec![9];
    collect_marked(&markers, 3, &mut found);
    assert_eq!(found, vec![9]);
    collect_marked(&markers, usize::MAX, &mut found);
    assert_eq!(found, vec![9]);
}
