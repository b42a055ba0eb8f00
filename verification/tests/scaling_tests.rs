//! The integer bounds that the library uses stand for checks that the
//! bindings make in `f64` on scaled values.
use fastgeotoolkit::polyline::decode_polyline_internal;
use fastgeotoolkit::polyline::coordinates_to_polyline_rust;

fn in_degree_range(lat: i32, lng: i32) -> bool {
    let la = lat as f64 * 1e-5;
    let lo = lng as f64 * 1e-5;
    !(la < -90.0 || la > 90.0 || lo < -180.0 || lo > 180.0) && !(la == 0.0 && lo == 0.0)
}

#[test]
fn fixed_point_bounds_match_scaled_degrees() {
    for lat in [-9000001, -9000000, -8999999, 0, 8999999, 9000000, 9000001] {
        for lng in [-18000001, -18000000, -17999999, 0, 1, 17999999, 18000000, 18000001] {
            let encoded = coordinates_to_polyline_rust(&[(lat, lng)]);
            let kept = !decode_polyline_internal(&encoded).is_empty();
            assert_eq!(kept, in_degree_range(lat, lng), "{} {}", lat, lng);
        }
    }
}

fn rounds_to_zero(raw: i32) -> bool {
    let degrees = raw as f64 * (180.0 / 2147483648.0);
    (degrees * 100000.0).round() / 100000.0 == 0.0
}

#[test]
fn semicircles_near_zero_round_to_zero() {
    for raw in -59..=59 {
        assert!(rounds_to_zero(raw));
    }
    assert!(!rounds_to_zero(60));
    assert!(!rounds_to_zero(-60));
}

#[test]
fn semicircle_latitude_bound_is_exact() {
    let limit = 1i32 << 30;
    assert!((limit as f64 * (180.0 / 2147483648.0)).abs() <= 90.0);
    assert!(((limit + 1) as f64 * (180.0 / 2147483648.0)).abs() > 90.0);
    assert!((-limit as f64 * (180.0 / 2147483648.0)).abs() <= 90.0);
    assert!(((-limit - 1) as f64 * (180.0 / 2147483648.0)).abs() > 90.0);
}
