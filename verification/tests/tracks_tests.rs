use fastgeotoolkit::tracks::{
    cluster_tracks_by_similarity_rust, merge_nearby_tracks_rust, split_track_by_gaps_rust,
};

#[test]
fn split_drops_isolated_points() {
    let pieces = split_track_by_gaps_rust(&['a', 'b', 'c', 'd', 'e'], &[true, false, false, true]);
    assert_eq!(pieces, vec![vec!['a', 'b'], vec!['d', 'e']]);
}

#[test]
fn split_short_tracks_come_back_whole() {
    assert_eq!(split_track_by_gaps_rust(&['a'], &[]), vec![vec!['a']]);
    assert_eq!(split_track_by_gaps_rust::<char>(&[], &[]), vec![Vec::<char>::new()]);
    assert_eq!(split_track_by_gaps_rust(&['a', 'b'], &[false]), Vec::<Vec<char>>::new());
}

#[test]
fn merge_keeps_longer_track() {
    let tracks = vec![vec![1, 2], vec![3, 4, 5], vec![6, 7]];
    let similar = vec![
        vec![false, true, false],
        vec![true, false, true],
        vec![false, true, false],
    ];
    assert_eq!(merge_nearby_tracks_rust(&tracks, &similar), vec![vec![3, 4, 5]]);
}

#[test]
fn merge_without_likeness_keeps_all() {
    let tracks = vec![vec![1, 2], vec![3, 4]];
    let similar = vec![vec![false, false], vec![false, false]];
    assert_eq!(merge_nearby_tracks_rust(&tracks, &similar), tracks);
}

#[test]
fn clusters_assign_each_track_once() {
    let tracks = vec![vec![1, 2], vec![3, 4], vec![5, 6]];
    let similar = vec![
        vec![false, true, false],
        vec![true, false, true],
        vec![false, true, false],
    ];
    let clusters = cluster_tracks_by_similarity_rust(&tracks, &similar);
    assert_eq!(clusters, vec![(vec![1, 2], vec![0u32, 1]), (vec![5, 6], vec![2u32])]);
}
