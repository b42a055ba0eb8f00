use fastgeotoolkit::polyline::{coordinates_to_polyline_rust, decode_polyline_internal, try_decode_polyline};

#[test]
fn decode_reference_polyline() {
    let coords = decode_polyline_internal("_p~iF~ps|U_ulLnnqC_mqNvxq`@");
    assert_eq!(coords, vec![(3850000, -12020000), (4070000, -12095000), (4325200, -12645300)]);
}

#[test]
fn encode_reference_polyline() {
    let encoded =
        coordinates_to_polyline_rust(&[(3850000, -12020000), (4070000, -12095000), (4325200, -12645300)]);
    assert_eq!(encoded, "_p~iF~ps|U_ulLnnqC_mqNvxq`@");
}

#[test]
fn roundtrip_keeps_valid_points() {
    let points = vec![(1, 2), (-100000, 5000000), (8999999, -17999999), (-8999999, 17999999)];
    let encoded = coordinates_to_polyline_rust(&points);
    assert_eq!(decode_polyline_internal(&encoded), points);
}

#[test]
fn decode_drops_origin_and_out_of_range_points() {
    // (0, 0), then (9000000, 0) which scales past 90 degrees, then (1, 1).
    let encoded = coordinates_to_polyline_rust(&[(0, 0), (9000000, 0), (1, 1)]);
    assert_eq!(decode_polyline_internal(&encoded), vec![(1, 1)]);
}

#[test]
fn decode_empty_and_trailing_latitude() {
    assert_eq!(decode_polyline_internal(""), Vec::<(i32, i32)>::new());
    // A lone latitude value: the longitude delta reads as 0.
    assert_eq!(decode_polyline_internal("A"), vec![(1, 0)]);
}

#[test]
fn decode_rejects_overlong_value() {
    assert_eq!(try_decode_polyline("~~~~~~~?"), None);
    assert!(try_decode_polyline("~~~~~~?").is_some());
}

#[test]
fn decode_rejects_running_overflow() {
    // Three latitude deltas of 2^30 - 1 sum past i32::MAX; two do not.
    let big = coordinates_to_polyline_rust(&[(1073741823, 0)]);
    let twice = format!("{}{}", big, big);
    assert!(try_decode_polyline(&twice).is_some());
    let thrice = format!("{}{}{}", big, big, big);
    assert_eq!(try_decode_polyline(&thrice), None);
}

#[test]
fn encode_large_delta_writes_single_character() {
    assert_eq!(coordinates_to_polyline_rust(&[(1 << 30, 0)]), "??");
}
