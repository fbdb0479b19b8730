use curved::{rdp, rdp_recomputing, simplify, InputError, PointSequence};

fn kept(flags: &[bool]) -> Vec<usize> {
    let mut out = Vec::new();
    for (i, flag) in flags.iter().enumerate() {
        if *flag {
            out.push(i);
        }
    }
    out
}

fn run(coords: &[i64], width: usize, epsilon: u64) -> Vec<usize> {
    let points = PointSequence::new(coords, width).unwrap();
    kept(&rdp(&points, epsilon).to_vec())
}

// The worked curve, with every coordinate and the tolerance times ten.
const WORKED: [i64; 20] = [0, 0, 10, 1, 20, -1, 30, 50, 40, 60, 50, 70, 60, 81, 70, 90, 80, 90, 90, 90];

#[test]
fn empty_curve_gives_empty_mask() {
    let coords: Vec<i64> = Vec::new();
    assert_eq!(simplify(&coords, 2, 1), Ok(Vec::new()));
    assert_eq!(simplify(&coords, 7, 0), Ok(Vec::new()));
}

#[test]
fn single_point_is_retained() {
    assert_eq!(simplify(&[4, 5], 2, 0), Ok(vec![true]));
    assert_eq!(simplify(&[4, 5], 2, 1000), Ok(vec![true]));
}

#[test]
fn two_points_are_retained() {
    assert_eq!(simplify(&[4, 5, -3, 9], 2, 0), Ok(vec![true, true]));
    assert_eq!(simplify(&[4, 5, 4, 5], 2, 50), Ok(vec![true, true]));
}

#[test]
fn endpoints_are_always_retained() {
    for epsilon in [0u64, 1, 10, 100, u64::MAX] {
        let flags = simplify(&WORKED, 2, epsilon).unwrap();
        assert_eq!(flags.len(), 10);
        assert!(flags[0]);
        assert!(flags[9]);
    }
}

#[test]
fn worked_curve() {
    assert_eq!(run(&WORKED, 2, 10), vec![0, 2, 3, 7, 9]);
}

#[test]
fn worked_curve_first_split_is_the_first_farthest_point() {
    // Points 2 and 6 lie equally far from the chord of the whole curve,
    // farther than point 3: the curve is split at point 2.
    assert_eq!(run(&WORKED, 2, 14), vec![0, 2, 3, 9]);
    assert_eq!(run(&WORKED, 2, 15), vec![0, 9]);
}

#[test]
fn tolerance_is_compared_strictly() {
    // The middle point lies at distance 3 from the chord.
    let coords = [0, 0, 4, 3, 8, 0];
    assert_eq!(run(&coords, 2, 2), vec![0, 1, 2]);
    assert_eq!(run(&coords, 2, 3), vec![0, 2]);
    assert_eq!(run(&coords, 2, 4), vec![0, 2]);
}

#[test]
fn ties_go_to_the_first_point() {
    let coords = [0, 0, 1, 2, 2, 2, 3, 0];
    assert_eq!(run(&coords, 2, 1), vec![0, 1, 3]);
}

#[test]
fn fewer_points_for_larger_tolerance() {
    let mut last = usize::MAX;
    let mut last_kept: Vec<usize> = Vec::new();
    for epsilon in [0u64, 1, 5, 10, 11, 12, 14, 15, 20, 30, 1000] {
        let now = run(&WORKED, 2, epsilon);
        assert!(now.len() <= last);
        if last != usize::MAX {
            assert!(now.iter().all(|i| last_kept.contains(i)));
        }
        last = now.len();
        last_kept = now;
    }
    assert_eq!(run(&WORKED, 2, 0).len(), 8);
    assert_eq!(run(&WORKED, 2, 1000).len(), 2);
    let points = PointSequence::new(&WORKED, 2).unwrap();
    assert_eq!(rdp(&points, 0).count(), 8);
    assert_eq!(rdp(&points, 10).count(), 5);
    assert_eq!(rdp(&points, 14).count(), 4);
    assert_eq!(rdp(&points, 15).count(), 2);
}

#[test]
fn simplifying_twice_changes_nothing() {
    for epsilon in [0u64, 5, 10, 12, 15] {
        let first = run(&WORKED, 2, epsilon);
        let mut chosen: Vec<i64> = Vec::new();
        for i in first.iter() {
            chosen.push(WORKED[2 * i]);
            chosen.push(WORKED[2 * i + 1]);
        }
        let second = simplify(&chosen, 2, epsilon).unwrap();
        assert_eq!(second, vec![true; first.len()]);
    }
}

#[test]
fn scaling_points_and_tolerance_keeps_the_mask() {
    for factor in [1i64, 2, 3, 7, 1000] {
        let scaled: Vec<i64> = WORKED.iter().map(|c| c * factor).collect();
        for epsilon in [0u64, 5, 10, 12, 15] {
            assert_eq!(
                simplify(&scaled, 2, epsilon * factor as u64),
                simplify(&WORKED, 2, epsilon)
            );
        }
    }
}

#[test]
fn collinear_points_reduce_to_the_endpoints() {
    let mut coords: Vec<i64> = Vec::new();
    for t in [0i64, 1, 2, 5, 6, 9, 20] {
        coords.push(3 + 2 * t);
        coords.push(-1 + 5 * t);
        coords.push(7 - 3 * t);
    }
    assert_eq!(run(&coords, 3, 1), vec![0, 6]);
    assert_eq!(run(&coords, 3, 0), vec![0, 6]);
}

#[test]
fn one_dimensional_points_reduce_to_the_endpoints() {
    assert_eq!(run(&[0, 5, -3, 40, 7], 1, 0), vec![0, 4]);
}

#[test]
fn zero_tolerance_retains_points_off_every_chord() {
    let coords = [0, 0, 1, 1, 2, 4, 3, 9, 4, 16, 5, 25];
    assert_eq!(run(&coords, 2, 0), vec![0, 1, 2, 3, 4, 5]);
}

#[test]
fn zero_tolerance_drops_a_point_on_the_chord_of_its_range() {
    // Not all points lie on one line, but point 1 lies on the chord from
    // point 0 to point 2, which is the range it ends up in.
    let coords = [0, 0, 1, 0, 2, 0, 2, 5];
    assert_eq!(run(&coords, 2, 0), vec![0, 2, 3]);
}

#[test]
fn closed_range_measures_distance_to_the_point() {
    let coords = [0, 0, 5, 0, 0, 0];
    assert_eq!(run(&coords, 2, 4), vec![0, 1, 2]);
    assert_eq!(run(&coords, 2, 5), vec![0, 2]);
    let coords = [1, 1, 4, 5, 1, 2, 1, 1];
    // Point 1 lies at distance 5 from the coinciding endpoints.
    assert_eq!(run(&coords, 2, 4), vec![0, 1, 3]);
    assert_eq!(run(&coords, 2, 5), vec![0, 3]);
}

#[test]
fn buffer_reuse_does_not_change_the_mask() {
    let curves: Vec<(Vec<i64>, usize)> = vec![
        (WORKED.to_vec(), 2),
        (vec![0, 0, 0, 3, 1, 4, 9, 9, 2, 5, -7, 1, 0, 0, 6, 6, 6, 0, 0, 0], 2),
        (vec![0, 0, 0, 1, 5, -2, 2, 2, 9, 7, 7, 7, 3, 0, 1, 10, 10, 10, 4, 4, 4], 3),
        (vec![5, 1, 9, 2, 8, 3, 7, 4], 1),
        (vec![0, 0, 1, 0, 2, 0, 2, 5], 2),
    ];
    for (coords, width) in curves.iter() {
        let points = PointSequence::new(coords, *width).unwrap();
        for epsilon in [0u64, 1, 2, 3, 5, 10, 100] {
            assert_eq!(
                rdp(&points, epsilon).to_vec(),
                rdp_recomputing(&points, epsilon).to_vec()
            );
        }
    }
}

#[test]
fn recomputing_path_gives_the_worked_result() {
    let points = PointSequence::new(&WORKED, 2).unwrap();
    assert_eq!(kept(&rdp_recomputing(&points, 10).to_vec()), vec![0, 2, 3, 7, 9]);
}

#[test]
fn three_dimensions() {
    // Point 1 lies at distance 5 from the x axis, point 2 at distance 1.
    let coords = [0, 0, 0, 10, 3, 4, 20, 1, 0, 30, 0, 0];
    assert_eq!(run(&coords, 3, 4), vec![0, 1, 3]);
    assert_eq!(run(&coords, 3, 5), vec![0, 3]);
}

#[test]
fn points_at_the_edge_of_reach() {
    let r: i64 = 1 << 30;
    let coords = [-r, 0, 0, r, r, 0];
    // The middle point lies at distance 2^30 from the chord.
    assert_eq!(run(&coords, 2, (r - 1) as u64), vec![0, 1, 2]);
    assert_eq!(run(&coords, 2, r as u64), vec![0, 2]);
    assert_eq!(run(&coords, 2, u64::MAX), vec![0, 2]);
    assert_eq!(run(&coords, 2, 1 << 31), vec![0, 2]);
    assert_eq!(run(&coords, 2, 0), vec![0, 1, 2]);
}

#[test]
fn zero_columns_are_refused() {
    assert_eq!(simplify(&[1, 2, 3], 0, 1), Err(InputError::ZeroColumns));
    assert_eq!(simplify(&[], 0, 1), Err(InputError::ZeroColumns));
}

#[test]
fn inconsistent_rows_are_refused() {
    assert_eq!(simplify(&[1, 2, 3, 4, 5], 2, 1), Err(InputError::InconsistentRows));
    assert_eq!(simplify(&[1], 3, 1), Err(InputError::InconsistentRows));
}

#[test]
fn too_wide_rows_are_refused() {
    assert_eq!(simplify(&[], usize::MAX, 1), Err(InputError::TooLarge));
}

#[test]
fn points_out_of_reach_are_refused() {
    let r: i64 = 1 << 30;
    assert_eq!(simplify(&[0, 0, r + 1, 0], 2, 1), Err(InputError::OutOfReach));
    assert_eq!(simplify(&[0, 0, r, 1], 2, 1), Err(InputError::OutOfReach));
    assert_eq!(simplify(&[0, 0, i64::MIN, 0], 2, 1), Err(InputError::OutOfReach));
    assert_eq!(simplify(&[0, 0, i64::MAX, i64::MAX], 2, 1), Err(InputError::OutOfReach));
    assert_eq!(simplify(&[0, 0, r, 0, 0, -r], 2, 1), Ok(vec![true, true, true]));
    assert_eq!(simplify(&[0, 0, r, 0, 0, -r], 2, 1 << 30), Ok(vec![true, false, true]));
}

#[test]
fn point_sequence_reports_its_shape() {
    let coords = [1, 2, 3, 4, 5, 6];
    let points = PointSequence::new(&coords, 3).unwrap();
    assert_eq!(points.len(), 2);
    assert_eq!(points.width(), 3);
    assert_eq!(points.coordinate(0, 0), 1);
    assert_eq!(points.coordinate(0, 2), 3);
    assert_eq!(points.coordinate(1, 0), 4);
    assert_eq!(points.coordinate(1, 2), 6);
    assert!(points.point_in_reach(1));
    let points = PointSequence::new(&coords, 2).unwrap();
    assert_eq!(points.len(), 3);
    assert_eq!(points.width(), 2);
    assert_eq!(points.coordinate(2, 1), 6);
}
