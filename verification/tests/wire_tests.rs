use track_motion::geometry::Point;
use track_motion::motion::Rectangle;
use track_motion::wire::{decode_record, wire_record, Corners, DecodeError};

fn pt(x: i64, y: i64) -> Point {
    Point { x, y }
}

fn bytes(s: &str) -> Vec<u8> {
    s.as_bytes().to_vec()
}

#[test]
fn canonical_record_text() {
    let r = Rectangle::canonical();
    let out = wire_record(&r);
    assert_eq!(
        String::from_utf8(out).unwrap(),
        "50.000,50.000,50.000,150.000,150.000,150.000,150.000,50.000"
    );
}

#[test]
fn negative_and_fractional_coordinates_serialize_exactly() {
    let mut r = Rectangle::canonical();
    r.top_left = pt(-12_345, 5);
    r.bottom_left = pt(0, -5);
    let out = wire_record(&r);
    assert_eq!(
        String::from_utf8(out).unwrap(),
        "-12.345,0.005,0.000,-0.005,150.000,150.000,150.000,50.000"
    );
}

#[test]
fn eight_integer_fields_decode() {
    let c = decode_record(&bytes("10,20,30,40,50,60,70,80")).unwrap();
    assert_eq!(c.top_left, pt(10_000, 20_000));
    assert_eq!(c.bottom_left, pt(30_000, 40_000));
    assert_eq!(c.bottom_right, pt(50_000, 60_000));
    assert_eq!(c.top_right, pt(70_000, 80_000));
}

#[test]
fn decoded_fields_feed_a_deterministic_center_and_angle() {
    let c = decode_record(&bytes("10,20,30,40,50,60,70,80")).unwrap();
    let f = track_motion::geometry::calculate_center_and_angle(
        c.top_left,
        c.bottom_left,
        c.bottom_right,
        c.top_right,
    );
    // Center (30.0, 40.0) in half-subunits; top edge direction (60, 60).
    assert_eq!(f.center_x2, 60_000);
    assert_eq!(f.center_y2, 80_000);
    assert_eq!(f.dir_x, 60_000);
    assert_eq!(f.dir_y, 60_000);
    let deg = (f.dir_y as f64).atan2(f.dir_x as f64).to_degrees();
    assert!((deg - 45.0).abs() < 1e-9);
}

#[test]
fn non_numeric_token_leaves_seven_fields_and_is_invalid() {
    let r = decode_record(&bytes("10,20,abc,40,50,60,70,80"));
    assert_eq!(r, Err(DecodeError::InvalidFormat));
}

#[test]
fn seven_fields_are_invalid() {
    let r = decode_record(&bytes("10,20,30,40,50,60,70"));
    assert_eq!(r, Err(DecodeError::InvalidFormat));
}

#[test]
fn nine_fields_are_invalid() {
    let r = decode_record(&bytes("1,2,3,4,5,6,7,8,9"));
    assert_eq!(r, Err(DecodeError::InvalidFormat));
}

#[test]
fn empty_and_all_padding_reads_are_invalid() {
    assert_eq!(decode_record(&Vec::new()), Err(DecodeError::InvalidFormat));
    assert_eq!(decode_record(&vec![0u8; 1024]), Err(DecodeError::InvalidFormat));
}

#[test]
fn non_utf8_garbage_is_invalid() {
    let mut buf = vec![0xFFu8, 0xFE, 0x80, 0x81];
    buf.extend_from_slice(b",,,");
    assert_eq!(decode_record(&buf), Err(DecodeError::InvalidFormat));
}

#[test]
fn non_utf8_byte_is_invalid_even_with_eight_numeric_fields() {
    // Eight parsable fields plus a ninth holding byte 0xFF: the read is
    // not valid UTF-8 text, so it is rejected before field counting.
    let mut buf = bytes("1,2,3,4,5,6,7,8,");
    buf.push(0xFF);
    assert_eq!(decode_record(&buf), Err(DecodeError::InvalidFormat));
}

#[test]
fn valid_utf8_non_numeric_field_is_merely_discarded() {
    // The same shape with a well-formed multi-byte scalar instead: valid
    // text, the ninth field fails to parse and is discarded, and the
    // eight numeric values decode.
    let c = decode_record(&bytes("1,2,3,4,5,6,7,8,\u{00e9}")).unwrap();
    assert_eq!(c.top_left, pt(1_000, 2_000));
    assert_eq!(c.top_right, pt(7_000, 8_000));
}

#[test]
fn truncated_multibyte_scalar_is_invalid() {
    // 0xC3 opens a two-byte sequence that the read cuts short.
    let mut buf = bytes("1,2,3,4,5,6,7,8,");
    buf.push(0xC3);
    assert_eq!(decode_record(&buf), Err(DecodeError::InvalidFormat));
}

#[test]
fn oversized_zero_filled_buffer_decodes_like_the_bare_record() {
    // A 1024-byte read buffer: the record at the front, zero fill after,
    // as a single bounded read leaves it.
    let mut buf = bytes(" \t10,20,30,40,50,60,70,80");
    buf.resize(1024, 0);
    let c = decode_record(&buf).unwrap();
    assert_eq!(c.top_left, pt(10_000, 20_000));
    assert_eq!(c.top_right, pt(70_000, 80_000));
}

#[test]
fn too_many_integer_digits_fail_that_field() {
    // Thirteen integer digits exceed the field grammar, so only seven
    // fields remain and the record is invalid.
    let r = decode_record(&bytes("1234567890123,20,30,40,50,60,70,80"));
    assert_eq!(r, Err(DecodeError::InvalidFormat));
}

#[test]
fn short_fraction_scales_to_subunits() {
    let c = decode_record(&bytes("1.5,2.25,3.125,4,5,6,7,8")).unwrap();
    assert_eq!(c.top_left, pt(1_500, 2_250));
    assert_eq!(c.bottom_left, pt(3_125, 4_000));
}

#[test]
fn round_trip_restores_every_corner() {
    let mut r = Rectangle::canonical();
    r.top_left = pt(-1_279_999, 42);
    r.bottom_left = pt(0, -999_999_999_999_999);
    r.bottom_right = pt(999_999_999_999_999, 7_001);
    r.top_right = pt(123_456_789, -987_654_321);
    let wire = wire_record(&r);
    let c = decode_record(&wire).unwrap();
    assert_eq!(
        c,
        Corners {
            top_left: r.top_left,
            bottom_left: r.bottom_left,
            bottom_right: r.bottom_right,
            top_right: r.top_right,
        }
    );
}

#[test]
fn round_trip_after_ticks_matches_the_producer_state() {
    let mut r = Rectangle::canonical();
    for _ in 0..100 {
        r.update();
        let wire = wire_record(&r);
        let c = decode_record(&wire).unwrap();
        assert_eq!(c.top_left, r.top_left);
        assert_eq!(c.bottom_left, r.bottom_left);
        assert_eq!(c.bottom_right, r.bottom_right);
        assert_eq!(c.top_right, r.top_right);
    }
}
