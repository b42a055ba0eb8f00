use fastgeotoolkit::intersections::find_track_intersections;

fn sorted(mut r: Vec<(u64, Vec<u32>)>) -> Vec<(u64, Vec<u32>)> {
    r.sort();
    r
}

#[test]
fn shared_cell_lists_both_tracks() {
    let keys = vec![vec![1, 2, 3], vec![3, 4], vec![5]];
    assert_eq!(sorted(find_track_intersections(&keys)), vec![(3, vec![0, 1])]);
}

#[test]
fn repeats_within_one_track_are_no_intersection() {
    let keys = vec![vec![7, 7, 7], vec![8]];
    assert!(find_track_intersections(&keys).is_empty());
}

#[test]
fn cell_shared_by_three_tracks_lists_each_once_in_order() {
    let keys = vec![vec![9, 9], vec![9, 1], vec![2, 9, 9]];
    assert_eq!(sorted(find_track_intersections(&keys)), vec![(9, vec![0, 1, 2])]);
}

#[test]
fn several_shared_cells() {
    let keys = vec![vec![1, 2], vec![2, 3], vec![3, 1]];
    assert_eq!(
        sorted(find_track_intersections(&keys)),
        vec![(1, vec![0, 2]), (2, vec![0, 1]), (3, vec![1, 2])]
    );
}

#[test]
fn no_tracks_no_intersections() {
    let keys: Vec<Vec<u64>> = Vec::new();
    assert!(find_track_intersections(&keys).is_empty());
}
