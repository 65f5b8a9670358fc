use prproj::container::{is_gzip_stream, unpack};
use prproj::text::{comma_field_bounds, parse_decimal, same_text};
use std::io::Write;

#[test]
fn decimals_parse_like_unsigned_numbers() {
    assert_eq!(parse_decimal("254016000000", u64::MAX), Some(254_016_000_000));
    assert_eq!(parse_decimal("+12", u64::MAX), Some(12));
    assert_eq!(parse_decimal("", u64::MAX), None);
    assert_eq!(parse_decimal("+", u64::MAX), None);
    assert_eq!(parse_decimal("12a", u64::MAX), None);
    assert_eq!(parse_decimal("-1", u64::MAX), None);
    assert_eq!(parse_decimal(" 1", u64::MAX), None);
    assert_eq!(parse_decimal("18446744073709551615", u64::MAX), Some(u64::MAX));
    assert_eq!(parse_decimal("18446744073709551616", u64::MAX), None);
    assert_eq!(parse_decimal("4294967296", 0xffff_ffff), None);
    assert_eq!(parse_decimal("4294967295", 0xffff_ffff), Some(4_294_967_295));
}

#[test]
fn comma_fields_are_found_by_position() {
    let b = "0,0,1920,1080".as_bytes();
    assert_eq!(comma_field_bounds(b, 0), Some((0, 1)));
    assert_eq!(comma_field_bounds(b, 2), Some((4, 8)));
    assert_eq!(comma_field_bounds(b, 3), Some((9, 13)));
    assert_eq!(comma_field_bounds(b, 4), None);
    assert_eq!(comma_field_bounds("".as_bytes(), 0), Some((0, 0)));
    assert_eq!(comma_field_bounds("a,".as_bytes(), 1), Some((2, 2)));
}

#[test]
fn texts_compare_by_characters() {
    assert!(same_text("ObjectID", "ObjectID"));
    assert!(!same_text("ObjectID", "ObjectUID"));
    assert!(!same_text("é", "e"));
    assert!(same_text("", ""));
}

#[test]
fn raw_markup_passes_through() {
    let raw = b"<PremiereData/>".to_vec();
    assert!(!is_gzip_stream(&raw));
    assert_eq!(unpack(&raw), Some(raw.clone()));
    assert_eq!(unpack(&[0x1f]), Some(vec![0x1f]));
}

#[test]
fn gzip_markup_is_decompressed() {
    let text = b"<PremiereData><Sequence/></PremiereData>";
    let mut encoder = libflate::gzip::Encoder::new(Vec::new()).unwrap();
    encoder.write_all(text).unwrap();
    let packed = encoder.finish().into_result().unwrap();
    assert!(is_gzip_stream(&packed));
    assert_eq!(unpack(&packed), Some(text.to_vec()));
}

#[test]
fn broken_gzip_is_refused() {
    assert_eq!(unpack(&[0x1f, 0x8b, 0, 0]), None);
}
