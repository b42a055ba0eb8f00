use fastgeotoolkit::fit::{is_fit_file, FitParser};

fn header(data_size: u32) -> Vec<u8> {
    let mut h = vec![14u8, 0x10, 0x00, 0x00];
    h.extend_from_slice(&data_size.to_le_bytes());
    h.extend_from_slice(b".FIT");
    h.extend_from_slice(&[0, 0]);
    h
}

fn definition(local: u8, global: u16, fields: &[(u8, u8)]) -> Vec<u8> {
    let mut d = vec![0x40 | local, 0, 0];
    d.extend_from_slice(&global.to_le_bytes());
    d.push(fields.len() as u8);
    for (num, size) in fields {
        d.extend_from_slice(&[*num, *size, 0x85]);
    }
    d
}

fn file(records: Vec<u8>) -> Vec<u8> {
    let mut f = header(records.len() as u32);
    f.extend(records);
    f.extend_from_slice(&[0, 0]);
    f
}

#[test]
fn fit_signature_detection() {
    let f = file(vec![]);
    assert!(is_fit_file(&f));
    assert!(!is_fit_file(b"<?xml version"));
    assert!(!is_fit_file(b".FIT"));
}

#[test]
fn record_message_positions() {
    let mut records = definition(0, 20, &[(0, 4), (1, 4)]);
    records.push(0x00);
    records.extend_from_slice(&620349269i32.to_le_bytes());
    records.extend_from_slice(&159867621i32.to_le_bytes());
    records.push(0x00);
    records.extend_from_slice(&0x7fffffffi32.to_le_bytes());
    records.extend_from_slice(&159867621i32.to_le_bytes());
    records.push(0x00);
    records.extend_from_slice(&(-620349269i32).to_le_bytes());
    records.extend_from_slice(&(-159867621i32).to_le_bytes());
    let mut parser = FitParser::new(file(records));
    assert_eq!(parser.parse_gps_coordinates(), vec![(620349269, 159867621), (-620349269, -159867621)]);
}

#[test]
fn record_message_near_origin_dropped() {
    let mut records = definition(3, 20, &[(0, 4), (1, 4), (2, 2)]);
    records.push(0x03);
    records.extend_from_slice(&59i32.to_le_bytes());
    records.extend_from_slice(&(-59i32).to_le_bytes());
    records.extend_from_slice(&[1, 2]);
    records.push(0x03);
    records.extend_from_slice(&60i32.to_le_bytes());
    records.extend_from_slice(&(-59i32).to_le_bytes());
    records.extend_from_slice(&[1, 2]);
    let mut parser = FitParser::new(file(records));
    assert_eq!(parser.parse_gps_coordinates(), vec![(60, -59)]);
}

#[test]
fn flexible_message_picks_latitude_and_longitude() {
    let mut records = definition(1, 18, &[(5, 4), (6, 4), (7, 4), (8, 1)]);
    records.push(0x01);
    records.extend_from_slice(&1789569706i32.to_le_bytes());
    records.extend_from_slice(&620349269i32.to_le_bytes());
    records.extend_from_slice(&0x7fffffffi32.to_le_bytes());
    records.push(9);
    let mut parser = FitParser::new(file(records));
    assert_eq!(parser.parse_gps_coordinates(), vec![(620349269, 1789569706)]);
}

#[test]
fn latitude_beyond_ninety_degrees_ignored() {
    let mut records = definition(0, 20, &[(0, 4), (1, 4)]);
    records.push(0x00);
    records.extend_from_slice(&((1i32 << 30) + 1).to_le_bytes());
    records.extend_from_slice(&1000i32.to_le_bytes());
    let mut parser = FitParser::new(file(records));
    assert_eq!(parser.parse_gps_coordinates(), Vec::<(i32, i32)>::new());
}

#[test]
fn other_messages_skipped() {
    let mut records = definition(2, 21, &[(0, 4), (1, 4)]);
    records.push(0x02);
    records.extend_from_slice(&620349269i32.to_le_bytes());
    records.extend_from_slice(&159867621i32.to_le_bytes());
    records.extend(definition(0, 20, &[(0, 4), (1, 4)]));
    records.push(0x00);
    records.extend_from_slice(&1000000i32.to_le_bytes());
    records.extend_from_slice(&2000000i32.to_le_bytes());
    let mut parser = FitParser::new(file(records));
    assert_eq!(parser.parse_gps_coordinates(), vec![(1000000, 2000000)]);
}

#[test]
fn bad_headers_give_nothing() {
    let mut short = FitParser::new(vec![14, 0, 0]);
    assert_eq!(short.parse_gps_coordinates(), Vec::<(i32, i32)>::new());
    let mut small_header = FitParser::new(vec![11u8; 20]);
    assert_eq!(small_header.parse_gps_coordinates(), Vec::<(i32, i32)>::new());
    let mut f = file(vec![]);
    f[9] = b'X';
    let mut unsigned = FitParser::new(f);
    assert_eq!(unsigned.parse_gps_coordinates(), Vec::<(i32, i32)>::new());
}

#[test]
fn second_parse_reads_nothing_more() {
    let mut records = definition(0, 20, &[(0, 4), (1, 4)]);
    records.push(0x00);
    records.extend_from_slice(&620349269i32.to_le_bytes());
    records.extend_from_slice(&159867621i32.to_le_bytes());
    let mut parser = FitParser::new(file(records));
    assert_eq!(parser.parse_gps_coordinates().len(), 1);
    assert_eq!(parser.parse_gps_coordinates(), Vec::<(i32, i32)>::new());
}

fn position_records() -> Vec<u8> {
    let mut records = definition(0, 20, &[(0, 4), (1, 4)]);
    records.push(0x00);
    records.extend_from_slice(&620349269i32.to_le_bytes());
    records.extend_from_slice(&159867621i32.to_le_bytes());
    records
}

#[test]
fn undefined_local_type_is_a_failure_that_is_passed() {
    let mut records = vec![0x05u8; 99];
    records.extend(position_records());
    let mut parser = FitParser::new(file(records));
    assert_eq!(parser.parse_gps_coordinates(), vec![(620349269, 159867621)]);
}

#[test]
fn hundred_failures_in_a_row_stop_the_scan() {
    let mut records = vec![0x05u8; 100];
    records.extend(position_records());
    let mut parser = FitParser::new(file(records));
    assert_eq!(parser.parse_gps_coordinates(), Vec::<(i32, i32)>::new());
}

#[test]
fn oversized_field_definition_is_rejected() {
    let mut records = definition(0, 20, &[(0, 4), (1, 101)]);
    records.push(0x00);
    records.extend(position_records());
    let mut parser = FitParser::new(file(records));
    assert_eq!(parser.parse_gps_coordinates(), vec![(620349269, 159867621)]);
}

#[test]
fn record_past_the_end_stops_the_scan() {
    let mut records = definition(0, 20, &[(0, 4), (1, 4)]);
    records.push(0x00);
    records.extend_from_slice(&620349269i32.to_le_bytes());
    let mut parser = FitParser::new(file(records));
    assert_eq!(parser.parse_gps_coordinates(), Vec::<(i32, i32)>::new());
}
