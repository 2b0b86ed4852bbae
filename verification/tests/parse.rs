use lossless_jpeg::parser::parse_lossless_jpeg;
use lossless_jpeg::types::ParseError;

/// A DHT segment for `destination` whose sixteen counts sum to the number
/// of values, as a well-formed producer writes it.
fn dht_segment(destination: u8, counts: [u8; 16], values: &[u8]) -> Vec<u8> {
    let mut out: Vec<u8> = vec![0xFF, 0xC4];
    let length: u16 = 19 + values.len() as u16;
    out.push((length >> 8) as u8);
    out.push((length & 0xFF) as u8);
    out.push(destination);
    out.extend_from_slice(&counts);
    out.extend_from_slice(values);
    out
}

/// An SOS header selecting one table per component.
fn sos_segment(pairs: &[(u8, u8)], predictor: u8, point_transform: u8) -> Vec<u8> {
    let mut out: Vec<u8> = vec![0xFF, 0xDA];
    let length: u16 = 6 + 2 * pairs.len() as u16;
    out.push((length >> 8) as u8);
    out.push((length & 0xFF) as u8);
    out.push(pairs.len() as u8);
    for &(id, sel) in pairs {
        out.push(id);
        out.push(sel << 4);
    }
    out.push(predictor);
    out.push(0);
    out.push(point_transform);
    out
}

/// SOI + SOF3 with the given fixed fields and (id, packed sampling, qtable)
/// triples.
fn header(precision: u8, y: u16, x: u16, components: &[(u8, u8, u8)]) -> Vec<u8> {
    let mut out: Vec<u8> = vec![0xFF, 0xD8, 0xFF, 0xC3];
    let length: u16 = 8 + 3 * components.len() as u16;
    out.push((length >> 8) as u8);
    out.push((length & 0xFF) as u8);
    out.push(precision);
    out.push((y >> 8) as u8);
    out.push((y & 0xFF) as u8);
    out.push((x >> 8) as u8);
    out.push((x & 0xFF) as u8);
    out.push(components.len() as u8);
    for &(id, sampling, q) in components {
        out.push(id);
        out.push(sampling);
        out.push(q);
    }
    out
}

fn one_count() -> [u8; 16] {
    let mut counts = [0u8; 16];
    counts[0] = 1;
    counts
}

#[test]
fn minimal_valid_buffer() {
    let mut buf = header(8, 1, 1, &[(1, 0x11, 0)]);
    buf.extend_from_slice(&dht_segment(0, one_count(), &[0x05]));
    buf.extend_from_slice(&sos_segment(&[(1, 0)], 1, 0));
    buf.extend_from_slice(&[0xFF, 0xD9]);
    let parsed = parse_lossless_jpeg(&buf).unwrap();
    assert!(parsed.unrecognized_markers.is_empty());
    let frame = parsed.frame;
    assert_eq!(frame.precision, 8);
    assert_eq!(frame.y, 1);
    assert_eq!(frame.x, 1);
    assert_eq!(frame.components.len(), 1);
    assert_eq!(frame.components[0].id, 1);
    assert_eq!(frame.components[0].horizontal_sampling_factor, 1);
    assert_eq!(frame.components[0].vertical_sampling_factor, 1);
    assert_eq!(frame.components[0].q_table, 0);
    assert_eq!(frame.tables.len(), 1);
    assert_eq!(frame.tables[0].destination, 0);
    assert_eq!(frame.tables[0].number_of_codes, one_count().to_vec());
    assert_eq!(frame.tables[0].values, vec![0x05]);
    assert_eq!(frame.scans.len(), 1);
    assert_eq!(frame.scans[0].table_mappings, vec![(1, 0)]);
    assert_eq!(frame.scans[0].predictor, 1);
    assert_eq!(frame.scans[0].point_transform, 0);
}

#[test]
fn not_an_image() {
    assert_eq!(parse_lossless_jpeg(&[0x00, 0x00]), Err(ParseError::NotAnImage));
    assert_eq!(
        parse_lossless_jpeg(&[0x89, 0x50, 0x4E, 0x47, 0x0D, 0x0A]),
        Err(ParseError::NotAnImage)
    );
    // the trailing bytes never matter, even if they would parse otherwise
    let mut buf = vec![0xFF, 0xD7];
    buf.extend_from_slice(&[0xFF, 0xC3, 0x00, 0x08, 8, 0, 1, 0, 1, 0, 0xFF, 0xD9]);
    assert_eq!(parse_lossless_jpeg(&buf), Err(ParseError::NotAnImage));
}

#[test]
fn unsupported_encoding_carries_marker() {
    let buf = [0xFF, 0xD8, 0xFF, 0xC0, 0x00, 0x0B];
    assert_eq!(parse_lossless_jpeg(&buf), Err(ParseError::UnsupportedEncoding(0xFFC0)));
    let progressive = [0xFF, 0xD8, 0xFF, 0xC2];
    assert_eq!(
        parse_lossless_jpeg(&progressive),
        Err(ParseError::UnsupportedEncoding(0xFFC2))
    );
}

#[test]
fn truncated_buffers_are_out_of_bounds() {
    assert_eq!(parse_lossless_jpeg(&[]), Err(ParseError::OutOfBounds));
    assert_eq!(parse_lossless_jpeg(&[0xFF]), Err(ParseError::OutOfBounds));
    assert_eq!(parse_lossless_jpeg(&[0xFF, 0xD8]), Err(ParseError::OutOfBounds));
    assert_eq!(parse_lossless_jpeg(&[0xFF, 0xD8, 0xFF]), Err(ParseError::OutOfBounds));
    // header cut short in the middle of the component triples
    let buf = [0xFF, 0xD8, 0xFF, 0xC3, 0x00, 0x0B, 8, 0, 1, 0, 1, 2, 1, 0x11];
    assert_eq!(parse_lossless_jpeg(&buf), Err(ParseError::OutOfBounds));
    // a frame body that never reaches EOI
    let buf = header(8, 1, 1, &[(1, 0x11, 0)]);
    assert_eq!(parse_lossless_jpeg(&buf), Err(ParseError::OutOfBounds));
    // a DHT whose declared values run past the end of the buffer
    let mut buf = header(8, 1, 1, &[(1, 0x11, 0)]);
    let mut counts = [0u8; 16];
    counts[0] = 3;
    buf.extend_from_slice(&[0xFF, 0xC4, 0x00, 0x16, 0x00]);
    buf.extend_from_slice(&counts);
    buf.push(0x05);
    assert_eq!(parse_lossless_jpeg(&buf), Err(ParseError::OutOfBounds));
}

#[test]
fn malformed_table_is_rejected() {
    // counts sum to 2 but the declared length only leaves room for 1 value
    let mut buf = header(8, 1, 1, &[(1, 0x11, 0)]);
    let mut counts = [0u8; 16];
    counts[0] = 2;
    let mut dht: Vec<u8> = vec![0xFF, 0xC4, 0x00, 0x14, 0x00];
    dht.extend_from_slice(&counts);
    dht.push(0x05);
    buf.extend_from_slice(&dht);
    buf.extend_from_slice(&[0xFF, 0xD9]);
    assert_eq!(parse_lossless_jpeg(&buf), Err(ParseError::MalformedTable));
    // a declared length too short to hold even the fixed fields
    let mut buf = header(8, 1, 1, &[(1, 0x11, 0)]);
    let mut dht: Vec<u8> = vec![0xFF, 0xC4, 0x00, 0x12, 0x00];
    dht.extend_from_slice(&[0u8; 16]);
    buf.extend_from_slice(&dht);
    buf.extend_from_slice(&[0xFF, 0xD9]);
    assert_eq!(parse_lossless_jpeg(&buf), Err(ParseError::MalformedTable));
}

#[test]
fn second_table_replaces_first() {
    let mut buf = header(8, 1, 1, &[(1, 0x11, 0)]);
    buf.extend_from_slice(&dht_segment(0, one_count(), &[0x05]));
    buf.extend_from_slice(&dht_segment(0, one_count(), &[0x09]));
    buf.extend_from_slice(&[0xFF, 0xD9]);
    let parsed = parse_lossless_jpeg(&buf).unwrap();
    assert_eq!(parsed.frame.tables.len(), 1);
    assert_eq!(parsed.frame.tables[0].destination, 0);
    assert_eq!(parsed.frame.tables[0].values, vec![0x09]);
}

#[test]
fn distinct_destinations_both_kept() {
    let mut buf = header(8, 1, 1, &[(1, 0x11, 0)]);
    buf.extend_from_slice(&dht_segment(0, one_count(), &[0x05]));
    buf.extend_from_slice(&dht_segment(1, one_count(), &[0x09]));
    buf.extend_from_slice(&[0xFF, 0xD9]);
    let parsed = parse_lossless_jpeg(&buf).unwrap();
    assert_eq!(parsed.frame.tables.len(), 2);
    assert_eq!(parsed.frame.tables[0].destination, 0);
    assert_eq!(parsed.frame.tables[0].values, vec![0x05]);
    assert_eq!(parsed.frame.tables[1].destination, 1);
    assert_eq!(parsed.frame.tables[1].values, vec![0x09]);
}

#[test]
fn unknown_marker_reported_and_parse_continues() {
    let mut buf = header(8, 1, 1, &[(1, 0x11, 0)]);
    buf.extend_from_slice(&dht_segment(0, one_count(), &[0x05]));
    buf.extend_from_slice(&[0xFF, 0xE0]);
    buf.extend_from_slice(&sos_segment(&[(1, 0)], 1, 0));
    buf.extend_from_slice(&[0xFF, 0xD9]);
    let parsed = parse_lossless_jpeg(&buf).unwrap();
    assert_eq!(parsed.unrecognized_markers, vec![0xFFE0]);
    assert_eq!(parsed.frame.tables.len(), 1);
    assert_eq!(parsed.frame.scans.len(), 1);
    assert_eq!(parsed.frame.scans[0].predictor, 1);
}

#[test]
fn stuffing_sentinels_skipped_silently() {
    let mut buf = header(8, 1, 1, &[(1, 0x11, 0)]);
    buf.extend_from_slice(&[0xFF, 0xFF]);
    buf.extend_from_slice(&[0xFF, 0x00]);
    // a two-byte word not starting with 0xFF is skipped without a report too
    buf.extend_from_slice(&[0x12, 0x34]);
    buf.extend_from_slice(&[0xFF, 0xD9]);
    let parsed = parse_lossless_jpeg(&buf).unwrap();
    assert!(parsed.unrecognized_markers.is_empty());
    assert!(parsed.frame.tables.is_empty());
    assert!(parsed.frame.scans.is_empty());
}

#[test]
fn round_trip_two_components() {
    // encode a richer frame by hand and check every parsed field
    let mut buf = header(12, 0x0102, 0x0304, &[(1, 0x21, 0), (2, 0x12, 1)]);
    let mut counts = [0u8; 16];
    counts[1] = 2;
    counts[3] = 1;
    buf.extend_from_slice(&dht_segment(0, counts, &[0x10, 0x20, 0x30]));
    buf.extend_from_slice(&dht_segment(1, one_count(), &[0x40]));
    buf.extend_from_slice(&sos_segment(&[(1, 0), (2, 1)], 7, 2));
    buf.extend_from_slice(&sos_segment(&[(2, 0)], 3, 1));
    buf.extend_from_slice(&[0xFF, 0xD9]);
    let parsed = parse_lossless_jpeg(&buf).unwrap();
    assert!(parsed.unrecognized_markers.is_empty());
    let frame = parsed.frame;
    assert_eq!(frame.precision, 12);
    assert_eq!(frame.y, 0x0102);
    assert_eq!(frame.x, 0x0304);
    assert_eq!(frame.components.len(), 2);
    assert_eq!(frame.components[0].horizontal_sampling_factor, 2);
    assert_eq!(frame.components[0].vertical_sampling_factor, 1);
    assert_eq!(frame.components[1].horizontal_sampling_factor, 1);
    assert_eq!(frame.components[1].vertical_sampling_factor, 2);
    assert_eq!(frame.components[1].q_table, 1);
    assert_eq!(frame.tables.len(), 2);
    assert_eq!(frame.tables[0].values, vec![0x10, 0x20, 0x30]);
    assert_eq!(frame.tables[1].values, vec![0x40]);
    assert_eq!(frame.scans.len(), 2);
    assert_eq!(frame.scans[0].table_mappings, vec![(1, 0), (2, 1)]);
    assert_eq!(frame.scans[0].predictor, 7);
    assert_eq!(frame.scans[0].point_transform, 2);
    assert_eq!(frame.scans[1].table_mappings, vec![(2, 0)]);
    assert_eq!(frame.scans[1].predictor, 3);
    assert_eq!(frame.scans[1].point_transform, 1);
}

#[test]
fn scan_pair_last_write_wins() {
    // two pairs for the same component id inside one scan: the second wins
    let mut buf = header(8, 1, 1, &[(1, 0x11, 0)]);
    buf.extend_from_slice(&sos_segment(&[(1, 0), (1, 3)], 1, 0));
    buf.extend_from_slice(&[0xFF, 0xD9]);
    let parsed = parse_lossless_jpeg(&buf).unwrap();
    assert_eq!(parsed.frame.scans[0].table_mappings, vec![(1, 3)]);
}
