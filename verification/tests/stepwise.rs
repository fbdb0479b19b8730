use curved::{
    line_point_distances, rdp, rdp_stepwise, PendingRange, PointSequence, Simplification,
};

const WORKED: [i64; 20] = [0, 0, 10, 1, 20, -1, 30, 50, 40, 60, 50, 70, 60, 81, 70, 90, 80, 90, 90, 90];

fn pending(lo: usize, hi: usize, shares_buffer: bool) -> Option<PendingRange> {
    Some(PendingRange { lo, hi, shares_buffer })
}

#[test]
fn short_curves_have_nothing_to_measure() {
    for n in 0..3 {
        let state = Simplification::begin(n);
        assert_eq!(state.next(), None);
        assert_eq!(state.finish().to_vec(), vec![true; n]);
    }
}

#[test]
fn the_whole_curve_is_measured_first() {
    let state = Simplification::begin(6);
    assert_eq!(state.next(), pending(0, 5, false));
    assert_eq!(state.finish().to_vec(), vec![true, false, false, false, false, true]);
}

#[test]
fn a_range_within_the_threshold_is_final() {
    let mut state = Simplification::begin(5);
    state.resolve(&vec![0, 3, 7, 7, 0], 7);
    assert_eq!(state.next(), None);
    assert_eq!(state.finish().to_vec(), vec![true, false, false, false, true]);
}

#[test]
fn a_split_range_leaves_its_left_part_next() {
    let mut state = Simplification::begin(7);
    state.resolve(&vec![0, 1, 2, 9, 9, 1, 0], 5);
    assert_eq!(state.next(), pending(0, 3, true));
    state.resolve(&vec![0, 1, 1, 0], 5);
    assert_eq!(state.next(), pending(3, 6, false));
    state.resolve(&vec![0, 2, 8, 0], 5);
    // Both parts of the range 3..=6 that are left have two points or three.
    assert_eq!(state.next(), pending(3, 5, true));
    state.resolve(&vec![0, 6, 0], 5);
    assert_eq!(state.next(), None);
    assert_eq!(
        state.finish().to_vec(),
        vec![true, false, false, true, true, true, true]
    );
}

#[test]
fn parts_of_two_points_are_not_entered() {
    let mut state = Simplification::begin(3);
    state.resolve(&vec![0, 4, 0], 1);
    assert_eq!(state.next(), None);
    assert_eq!(state.finish().to_vec(), vec![true, true, true]);
    let mut state = Simplification::begin(4);
    state.resolve(&vec![0, 4, 1, 0], 1);
    assert_eq!(state.next(), pending(1, 3, false));
    let mut state = Simplification::begin(4);
    state.resolve(&vec![0, 1, 4, 0], 1);
    assert_eq!(state.next(), pending(0, 2, true));
}

#[test]
fn stepwise_simplification_gives_the_worked_result() {
    let points = PointSequence::new(&WORKED, 2).unwrap();
    assert_eq!(
        rdp_stepwise(&points, 10).to_vec(),
        vec![true, false, true, true, false, false, false, true, false, true]
    );
}

#[test]
fn stepwise_simplification_agrees_with_the_recursion() {
    let curves: Vec<(Vec<i64>, usize)> = vec![
        (WORKED.to_vec(), 2),
        (vec![0, 0, 0, 3, 1, 4, 9, 9, 2, 5, -7, 1, 0, 0, 6, 6, 6, 0, 0, 0], 2),
        (vec![0, 0, 0, 1, 5, -2, 2, 2, 9, 7, 7, 7, 3, 0, 1, 10, 10, 10, 4, 4, 4], 3),
        (vec![5, 1, 9, 2, 8, 3, 7, 4], 1),
        (vec![], 2),
        (vec![1, 2], 2),
    ];
    for (coords, width) in curves.iter() {
        let points = PointSequence::new(coords, *width).unwrap();
        for epsilon in [0u64, 1, 2, 3, 5, 10, 100] {
            assert_eq!(rdp_stepwise(&points, epsilon).to_vec(), rdp(&points, epsilon).to_vec());
        }
    }
}

#[test]
fn a_caller_can_drive_the_steps() {
    let points = PointSequence::new(&WORKED, 2).unwrap();
    let mut state = Simplification::begin(points.len());
    let mut order: Vec<(usize, usize, bool)> = Vec::new();
    while let Some(range) = state.next() {
        order.push((range.lo, range.hi, range.shares_buffer));
        let distances = line_point_distances(&points, range.lo, range.hi);
        // The distances carry the squared length of the chord as a factor.
        let dx = (WORKED[2 * range.hi] - WORKED[2 * range.lo]) as i128;
        let dy = (WORKED[2 * range.hi + 1] - WORKED[2 * range.lo + 1]) as i128;
        state.resolve(&distances, 100 * (dx * dx + dy * dy));
    }
    assert_eq!(order, vec![(0, 9, false), (0, 2, true), (2, 9, false), (3, 9, false), (3, 7, true), (7, 9, false)]);
    assert_eq!(state.finish().to_vec(), rdp(&points, 10).to_vec());
}

#[test]
fn long_curves_agree_on_every_path() {
    // A walk of 3000 points in three dimensions, from a fixed sequence.
    let mut seed: u64 = 0x2545_f491_4f6c_dd1d;
    let mut coords: Vec<i64> = Vec::new();
    let mut at = [0i64, 0, 0];
    for _ in 0..3000 {
        for c in at.iter_mut() {
            seed = seed.wrapping_mul(6364136223846793005).wrapping_add(1442695040888963407);
            *c += ((seed >> 33) % 2001) as i64 - 1000;
            coords.push(*c);
        }
    }
    let points = PointSequence::new(&coords, 3).unwrap();
    let mut last = usize::MAX;
    for epsilon in [0u64, 100, 1000, 5000, 20000, 1000000] {
        let mask = rdp(&points, epsilon);
        assert_eq!(mask.to_vec(), curved::rdp_recomputing(&points, epsilon).to_vec());
        assert_eq!(mask.to_vec(), rdp_stepwise(&points, epsilon).to_vec());
        assert!(mask.count() <= last);
        last = mask.count();
        let flags = mask.to_vec();
        let mut chosen: Vec<i64> = Vec::new();
        for (i, flag) in flags.iter().enumerate() {
            if *flag {
                chosen.extend_from_slice(&coords[3 * i..3 * i + 3]);
            }
        }
        let again = curved::simplify(&chosen, 3, epsilon).unwrap();
        assert_eq!(again, vec![true; mask.count()]);
    }
    assert_eq!(last, 2);
}
