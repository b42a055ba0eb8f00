use fastgeotoolkit::files::{
    extract_file_metadata, get_file_info, gpx_file_info, gpx_metadata, FileFormat, FileInfo,
    FileMetadata, GpxSummary, GpxTrack, TrackMetadata,
};

const SAMPLE_GPX: &str = r#"<?xml version="1.0" encoding="UTF-8"?>
<gpx version="1.1" creator="tester" xmlns="http://www.topografix.com/GPX/1/1">
  <trk>
    <name>Morning</name>
    <desc>Loop</desc>
    <trkseg>
      <trkpt lat="1.0" lon="2.0"></trkpt>
      <trkpt lat="1.1" lon="2.1"></trkpt>
    </trkseg>
    <trkseg>
      <trkpt lat="1.2" lon="2.2"></trkpt>
    </trkseg>
  </trk>
  <trk>
    <trkseg>
      <trkpt lat="3.0" lon="4.0"></trkpt>
    </trkseg>
  </trk>
</gpx>"#;

fn fit_file_with_one_position() -> Vec<u8> {
    let mut records = vec![0x40u8, 0, 0];
    records.extend_from_slice(&20u16.to_le_bytes());
    records.push(2);
    records.extend_from_slice(&[0, 4, 0x85, 1, 4, 0x85]);
    records.push(0x00);
    records.extend_from_slice(&620349269i32.to_le_bytes());
    records.extend_from_slice(&159867621i32.to_le_bytes());
    let mut f = vec![14u8, 0x10, 0x00, 0x00];
    f.extend_from_slice(&(records.len() as u32).to_le_bytes());
    f.extend_from_slice(b".FIT");
    f.extend_from_slice(&[0, 0]);
    f.extend(records);
    f.extend_from_slice(&[0, 0]);
    f
}

#[test]
fn gpx_file_info_counts_tracks_and_points() {
    let bytes = SAMPLE_GPX.as_bytes().to_vec();
    let size = bytes.len() as u32;
    assert_eq!(
        get_file_info(bytes),
        Some(FileInfo {
            format: FileFormat::Gpx,
            track_count: 2,
            point_count: 4,
            valid: true,
            file_size: size,
        })
    );
}

#[test]
fn fit_file_info_counts_positions() {
    let bytes = fit_file_with_one_position();
    let size = bytes.len() as u32;
    assert_eq!(
        get_file_info(bytes),
        Some(FileInfo {
            format: FileFormat::Fit,
            track_count: 1,
            point_count: 1,
            valid: true,
            file_size: size,
        })
    );
}

#[test]
fn unknown_file_info_is_invalid() {
    assert_eq!(
        get_file_info(b"hello world".to_vec()),
        Some(FileInfo {
            format: FileFormat::Unknown,
            track_count: 0,
            point_count: 0,
            valid: false,
            file_size: 11,
        })
    );
}

#[test]
fn gpx_metadata_lists_tracks() {
    let expected = FileMetadata::Gpx {
        creator: "tester".to_string(),
        version: "Gpx11".to_string(),
        tracks: vec![
            TrackMetadata { name: "Morning".to_string(), description: "Loop".to_string(), segment_count: 2 },
            TrackMetadata { name: String::new(), description: String::new(), segment_count: 1 },
        ],
    };
    assert_eq!(extract_file_metadata(SAMPLE_GPX.as_bytes().to_vec()), expected);
}

#[test]
fn gpx_without_creator_has_empty_creator() {
    let gpx = r#"<gpx version="1.0"></gpx>"#;
    let expected = FileMetadata::Gpx { creator: String::new(), version: "Gpx10".to_string(), tracks: vec![] };
    assert_eq!(extract_file_metadata(gpx.as_bytes().to_vec()), expected);
}

#[test]
fn fit_metadata_is_file_size() {
    let bytes = fit_file_with_one_position();
    let size = bytes.len();
    assert_eq!(extract_file_metadata(bytes), FileMetadata::Fit { file_size: size });
}

#[test]
fn unknown_metadata() {
    assert_eq!(extract_file_metadata(vec![1, 2, 3]), FileMetadata::Unknown);
}

fn summary(segment_sizes: Vec<Vec<usize>>) -> GpxSummary {
    GpxSummary {
        creator: Some("maker".to_string()),
        version: "Gpx10".to_string(),
        tracks: segment_sizes
            .into_iter()
            .map(|sizes| GpxTrack { name: None, description: Some("d".to_string()), segment_sizes: sizes })
            .collect(),
    }
}

#[test]
fn gpx_file_info_sums_segments() {
    assert_eq!(
        gpx_file_info(&summary(vec![vec![3, 4], vec![], vec![5]]), 77),
        Some(FileInfo { format: FileFormat::Gpx, track_count: 3, point_count: 12, valid: true, file_size: 77 })
    );
}

#[test]
fn gpx_file_info_at_the_limit() {
    let max = u32::MAX as usize;
    assert_eq!(
        gpx_file_info(&summary(vec![vec![max - 1], vec![1]]), 0),
        Some(FileInfo { format: FileFormat::Gpx, track_count: 2, point_count: u32::MAX, valid: true, file_size: 0 })
    );
}

#[test]
fn gpx_file_info_overflow_is_none() {
    let max = u32::MAX as usize;
    assert_eq!(gpx_file_info(&summary(vec![vec![max], vec![1]]), 0), None);
}

#[test]
fn gpx_metadata_defaults_missing_text() {
    let expected = FileMetadata::Gpx {
        creator: "maker".to_string(),
        version: "Gpx10".to_string(),
        tracks: vec![
            TrackMetadata { name: String::new(), description: "d".to_string(), segment_count: 2 },
            TrackMetadata { name: String::new(), description: "d".to_string(), segment_count: 0 },
        ],
    };
    assert_eq!(gpx_metadata(&summary(vec![vec![1, 1], vec![]])), expected);
}
