use fastgeotoolkit::filters::{JumpFilter, TrackSimplifier};

/// Drives a simplification over points on a line with the given tolerance.
fn simplify(points: &[i64], tolerance: i64) -> Vec<usize> {
    let mut s = TrackSimplifier::new(points.len());
    while let Some((last, next)) = s.pending() {
        s.answer((points[next] - points[last]).abs() > tolerance);
    }
    s.kept().clone()
}

/// Drives a jump filter over points on a line, distances in km.
fn filter_jumps(points: &[i64]) -> Vec<usize> {
    let mut f = JumpFilter::new(points.len());
    while let Some((last, point, limit)) = f.query() {
        f.answer((points[point] - points[last]).abs() <= limit as i64);
    }
    f.kept().clone()
}

#[test]
fn simplify_keeps_short_tracks() {
    assert_eq!(simplify(&[], 1), Vec::<usize>::new());
    assert_eq!(simplify(&[5], 1), vec![0]);
    assert_eq!(simplify(&[5, 5], 1), vec![0, 1]);
}

#[test]
fn simplify_drops_close_points_and_keeps_last() {
    assert_eq!(simplify(&[0, 1, 2, 5, 6, 6], 2), vec![0, 3, 5]);
    assert_eq!(simplify(&[0, 0, 0, 0], 10), vec![0, 3]);
}

#[test]
fn jump_filter_keeps_smooth_track() {
    assert_eq!(filter_jumps(&[0, 10, 20, 30]), vec![0, 1, 2, 3]);
    assert_eq!(filter_jumps(&[7]), vec![0]);
    assert_eq!(filter_jumps(&[]), Vec::<usize>::new());
}

#[test]
fn jump_filter_skips_single_outlier() {
    // The outlier at index 2 is followed by a plausible continuation.
    assert_eq!(filter_jumps(&[0, 10, 5000, 20, 30]), vec![0, 1, 3, 4]);
}

#[test]
fn jump_filter_rescues_after_long_detour() {
    // After the jump at index 1 nothing within 150 km follows in the
    // look-ahead window, so the first point within 100 km is searched for
    // and the track goes on from there.
    let mut points = vec![0, 1000];
    for _ in 0..25 {
        points.push(2000);
    }
    points.push(50);
    points.push(120);
    points.push(3000);
    points.push(150);
    let kept = filter_jumps(&points);
    let n = points.len();
    assert_eq!(kept, vec![0, n - 4, n - 3, n - 1]);
}

#[test]
fn jump_filter_stops_after_eleven_jumps_in_a_row() {
    // Twelve far points, each with a continuation in reach, then a near one:
    // the eleventh jump in a row ends the filter before the near point.
    let mut points = vec![0];
    points.extend(std::iter::repeat(1000).take(12));
    points.push(10);
    assert_eq!(filter_jumps(&points), vec![0]);
    // Ten jumps in a row are tolerated.
    let mut points = vec![0];
    points.extend(std::iter::repeat(1000).take(10));
    points.push(10);
    assert_eq!(filter_jumps(&points), vec![0, 11]);
}

#[test]
fn simplifying_a_simplified_track_keeps_every_point() {
    let points = [0i64, 1, 2, 5, 6, 6, 9, 9, 13, 14];
    let kept = simplify(&points, 2);
    assert_eq!(kept, vec![0, 3, 6, 8, 9]);
    let simplified: Vec<i64> = kept.iter().map(|&k| points[k]).collect();
    let again = simplify(&simplified, 2);
    assert_eq!(again, (0..simplified.len()).collect::<Vec<usize>>());
}
