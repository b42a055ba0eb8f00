use fastgeotoolkit::heatmap::{create_heatmap_from_tracks, try_create_heatmap_from_tracks};

#[test]
fn shared_segments_raise_frequency() {
    let tracks = vec![vec!['a', 'b', 'c'], vec!['a', 'b'], vec!['z']];
    let keys = vec![vec![1u64, 2], vec![1], vec![]];
    let result = create_heatmap_from_tracks(tracks, &keys);
    assert_eq!(result.tracks.len(), 2);
    assert_eq!(result.tracks[0].coordinates, vec!['a', 'b', 'c']);
    assert_eq!(result.tracks[0].frequency, 2);
    assert_eq!(result.tracks[1].coordinates, vec!['a', 'b']);
    assert_eq!(result.tracks[1].frequency, 2);
    assert_eq!(result.max_frequency, 2);
}

#[test]
fn mean_rounds_half_up() {
    // Track 0 has segment uses 2, 1, 1: mean 4/3 rounds to 1.
    let tracks = vec![vec![0, 1, 2, 3], vec![0, 1]];
    let keys = vec![vec![7u64, 8, 9], vec![7]];
    let result = create_heatmap_from_tracks(tracks, &keys);
    assert_eq!(result.tracks[0].frequency, 1);
    assert_eq!(result.tracks[1].frequency, 2);
    assert_eq!(result.max_frequency, 2);
    // Uses 2 and 1: mean 1.5 rounds to 2.
    let tracks = vec![vec![0, 1, 2], vec![0, 1]];
    let keys = vec![vec![7u64, 8], vec![7]];
    let result = create_heatmap_from_tracks(tracks, &keys);
    assert_eq!(result.tracks[0].frequency, 2);
}

#[test]
fn empty_heatmap_has_max_one() {
    let result = create_heatmap_from_tracks(Vec::<Vec<u8>>::new(), &vec![]);
    assert!(result.tracks.is_empty());
    assert_eq!(result.max_frequency, 1);
    let result = create_heatmap_from_tracks(vec![vec![5u8]], &vec![vec![]]);
    assert!(result.tracks.is_empty());
    assert_eq!(result.max_frequency, 1);
}

#[test]
fn try_heatmap_succeeds_on_small_input() {
    let result = try_create_heatmap_from_tracks(vec![vec![1, 2]], &vec![vec![3u64]]).unwrap();
    assert_eq!(result.tracks[0].frequency, 1);
    assert_eq!(result.max_frequency, 1);
}

#[test]
fn adding_a_track_keeps_earlier_tracks_and_raises_no_frequency_down() {
    let tracks = vec![vec![0, 1, 2], vec![0, 1]];
    let keys = vec![vec![7u64, 8], vec![7]];
    let before = create_heatmap_from_tracks(tracks.clone(), &keys);
    let mut tracks2 = tracks.clone();
    tracks2.push(vec![5, 6, 7]);
    let mut keys2 = keys.clone();
    keys2.push(vec![8, 8]);
    let after = create_heatmap_from_tracks(tracks2, &keys2);
    assert!(after.tracks.len() >= before.tracks.len());
    for (i, h) in before.tracks.iter().enumerate() {
        assert_eq!(after.tracks[i].coordinates, h.coordinates);
        assert!(after.tracks[i].frequency >= h.frequency);
    }
    assert!(after.max_frequency >= before.max_frequency);
    assert_eq!(before.tracks[0].frequency, 2);
    assert_eq!(after.tracks[0].frequency, 3);
    assert_eq!(after.max_frequency, 3);
}
