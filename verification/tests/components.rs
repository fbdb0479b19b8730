use curved::distance::span_product;
use curved::{
    buffered_distances, farthest, line_point_distances, line_point_distances_planar, split_index,
    ChordBuffer, PointSequence, RetentionMask,
};

#[test]
fn farthest_needs_an_interior_point() {
    assert_eq!(farthest(&vec![]), None);
    assert_eq!(farthest(&vec![7]), None);
    assert_eq!(farthest(&vec![7, 9]), None);
}

#[test]
fn farthest_skips_the_endpoints() {
    assert_eq!(farthest(&vec![100, 1, 2, 3, 100]), Some((3, 3)));
    assert_eq!(farthest(&vec![100, 5, 100]), Some((1, 5)));
}

#[test]
fn farthest_takes_the_first_of_equals() {
    assert_eq!(farthest(&vec![0, 4, 9, 9, 2, 9, 0]), Some((2, 9)));
    assert_eq!(farthest(&vec![0, 0, 0, 0]), Some((1, 0)));
    assert_eq!(farthest(&vec![0, -3, -1, -1, 0]), Some((2, -1)));
}

#[test]
fn distances_are_scaled_by_the_chord() {
    let coords = [0, 0, 1, 1, 2, 0];
    let points = PointSequence::new(&coords, 2).unwrap();
    let buffer = ChordBuffer::fresh(&points, 0, 2);
    // |v|^2 |c|^2 - (v . c)^2 = 2 * 4 - 2 * 2
    assert_eq!(buffered_distances(&buffer), vec![0, 4, 0]);
}

#[test]
fn distances_from_a_closed_chord() {
    let coords = [1, 1, 4, 5, 1, 2, 1, 1];
    let points = PointSequence::new(&coords, 2).unwrap();
    let buffer = ChordBuffer::fresh(&points, 0, 3);
    assert_eq!(buffered_distances(&buffer), vec![0, 25, 1, 0]);
}

#[test]
fn distances_in_three_dimensions() {
    let coords = [0, 0, 0, 10, 3, 4, 20, 1, 0, 30, 0, 0];
    let points = PointSequence::new(&coords, 3).unwrap();
    let buffer = ChordBuffer::fresh(&points, 0, 3);
    // 25 and 1, each times the squared length 900 of the chord.
    assert_eq!(buffered_distances(&buffer), vec![0, 22500, 900, 0]);
}

#[test]
fn buffer_holds_displacements_from_the_first_point() {
    let coords = [5, 5, 6, 7, 2, 1, 9, 9];
    let points = PointSequence::new(&coords, 2).unwrap();
    let buffer = ChordBuffer::fresh(&points, 1, 3);
    assert_eq!(buffer.len(), 3);
    assert_eq!(buffer.vector(0), &vec![0, 0]);
    assert_eq!(buffer.vector(1), &vec![-4, -6]);
    assert_eq!(buffer.vector(2), &vec![3, 2]);
    assert_eq!(buffer.magnitude(0), 0);
    assert_eq!(buffer.magnitude(1), 52);
    assert_eq!(buffer.magnitude(2), 13);
}

#[test]
fn prefix_is_the_buffer_of_the_left_part() {
    let coords = [0, 0, 3, 1, 4, 1, 5, 9, 2, 6];
    let points = PointSequence::new(&coords, 2).unwrap();
    let whole = ChordBuffer::fresh(&points, 0, 4);
    let left = whole.prefix(3);
    let direct = ChordBuffer::fresh(&points, 0, 2);
    assert_eq!(left.len(), 3);
    for k in 0..3 {
        assert_eq!(left.vector(k), direct.vector(k));
        assert_eq!(left.magnitude(k), direct.magnitude(k));
    }
    assert_eq!(buffered_distances(&left), buffered_distances(&direct));
    let shorter = left.prefix(2);
    assert_eq!(shorter.len(), 2);
    assert_eq!(shorter.vector(1), &vec![3, 1]);
}

#[test]
fn mask_of_endpoints() {
    assert_eq!(RetentionMask::endpoints(0).to_vec(), Vec::<bool>::new());
    assert_eq!(RetentionMask::endpoints(1).to_vec(), vec![true]);
    assert_eq!(RetentionMask::endpoints(2).to_vec(), vec![true, true]);
    assert_eq!(RetentionMask::endpoints(4).to_vec(), vec![true, false, false, true]);
}

#[test]
fn mask_retains_marked_points() {
    let mut mask = RetentionMask::endpoints(5);
    mask.retain(2);
    assert_eq!(mask.to_vec(), vec![true, false, true, false, true]);
    mask.retain(2);
    mask.retain(0);
    assert_eq!(mask.to_vec(), vec![true, false, true, false, true]);
}

#[test]
fn mask_reports_its_length() {
    assert_eq!(RetentionMask::endpoints(0).len(), 0);
    assert_eq!(RetentionMask::endpoints(7).len(), 7);
}

#[test]
fn split_needs_a_distance_above_the_threshold() {
    assert_eq!(split_index(&vec![0, 4, 9, 9, 2, 9, 0], 8), Some(2));
    assert_eq!(split_index(&vec![0, 4, 9, 9, 2, 9, 0], 9), None);
    assert_eq!(split_index(&vec![0, 4, 9, 9, 2, 9, 0], 10), None);
    assert_eq!(split_index(&vec![50, 1, 50], 0), Some(1));
    assert_eq!(split_index(&vec![50, 0, 50], 0), None);
}

#[test]
fn split_needs_an_interior_point() {
    assert_eq!(split_index(&vec![], -1), None);
    assert_eq!(split_index(&vec![5], -1), None);
    assert_eq!(split_index(&vec![5, 5], -1), None);
    assert_eq!(split_index(&vec![5, 5, 5], -1), Some(1));
}

#[test]
fn direct_distances_are_scaled_by_the_chord() {
    let coords = [0, 0, 1, 1, 2, 0];
    let points = PointSequence::new(&coords, 2).unwrap();
    assert_eq!(line_point_distances(&points, 0, 2), vec![0, 4, 0]);
    assert_eq!(line_point_distances(&points, 1, 2), vec![0, 0]);
    assert_eq!(line_point_distances(&points, 2, 2), vec![0]);
}

#[test]
fn direct_distances_from_a_closed_chord() {
    let coords = [1, 1, 4, 5, 1, 2, 1, 1];
    let points = PointSequence::new(&coords, 2).unwrap();
    assert_eq!(line_point_distances(&points, 0, 3), vec![0, 25, 1, 0]);
}

#[test]
fn the_three_evaluators_agree() {
    let coords = [0, 0, 3, 1, 4, 1, 5, 9, 2, 6, 5, 3, 5, 8, 9, 7, 9, 3, 2, 3];
    let points = PointSequence::new(&coords, 2).unwrap();
    for lo in 0..10 {
        for hi in lo..10 {
            let direct = line_point_distances(&points, lo, hi);
            let planar = line_point_distances_planar(&points, lo, hi);
            let buffered = buffered_distances(&ChordBuffer::fresh(&points, lo, hi));
            assert_eq!(direct, planar);
            assert_eq!(direct, buffered);
            assert_eq!(direct.len(), hi - lo + 1);
        }
    }
    // From the chord that joins (3, 1) and (2, 6): (4, 1) and (5, 9).
    assert_eq!(line_point_distances(&points, 1, 4), vec![0, 25, 324, 0]);
}

#[test]
fn planar_distances_at_the_edge_of_reach() {
    let r: i64 = 1 << 30;
    let coords = [-r, 0, 0, r, r, 0, 0, -r];
    let points = PointSequence::new(&coords, 2).unwrap();
    let expected: i128 = 1 << 122;
    assert_eq!(line_point_distances_planar(&points, 0, 2), vec![0, expected, 0]);
    assert_eq!(line_point_distances(&points, 0, 2), vec![0, expected, 0]);
    // Points 1 and 3 lie 2^31 apart; point 2 lies 2^30 off their chord.
    assert_eq!(line_point_distances(&points, 1, 3), vec![0, 1 << 122, 0]);
}

#[test]
fn span_product_is_the_inner_product_of_two_offsets() {
    let coords = [1, 2, 3, 4, 6, 8, -2, 0, 5];
    let points = PointSequence::new(&coords, 3).unwrap();
    // (3, 4, 5) . (-3, -2, 2)
    assert_eq!(span_product(&points, 1, 2, 0), -7);
    assert_eq!(span_product(&points, 1, 1, 0), 50);
    assert_eq!(span_product(&points, 0, 2, 0), 0);
}

#[test]
fn mask_counts_what_it_retains() {
    assert_eq!(RetentionMask::endpoints(0).count(), 0);
    assert_eq!(RetentionMask::endpoints(1).count(), 1);
    assert_eq!(RetentionMask::endpoints(9).count(), 2);
    let mut mask = RetentionMask::endpoints(9);
    mask.retain(4);
    mask.retain(5);
    mask.retain(4);
    assert_eq!(mask.count(), 4);
}
