//! Tests of the literal coordinate source: specification parsing,
//! validation, and degree/decimal-minute formatting.

use geotag::{dd_to_dmfract, parse_degrees, CoordTagger, DecimalDegrees, Tagger};

#[test]
fn test_parsing() {
    let coord = CoordTagger::new("101.23,-223.10");
    assert!(!coord.is_ok());
    let coord = CoordTagger::new("12.34,-45.54");
    assert!(coord.is_ok());

    let coords = coord.get_coord_for_file("");
    assert_eq!(
        coords,
        ("12,20.400000N".to_owned(), "45,32.400000W".to_owned())
    );

    // Invalid data
    let coord = CoordTagger::new("12.34/-45.54");
    assert!(!coord.is_ok());

    let coords = coord.get_coord_for_file("");
    assert_eq!(coords, (String::default(), String::default()));
}

#[test]
fn test_format_decimal_minutes() {
    let lat = DecimalDegrees {
        negative: false,
        whole: 45,
        frac_e10: 5205140000,
        frac_rest_nonzero: false,
    };
    assert_eq!(dd_to_dmfract(&lat, true), "45,31.230840N");
    let lon = DecimalDegrees {
        negative: true,
        whole: 73,
        frac_e10: 5827070000,
        frac_rest_nonzero: false,
    };
    assert_eq!(dd_to_dmfract(&lon, false), "73,34.962420W");
}

#[test]
fn test_full_pipeline_formatting() {
    let coord = CoordTagger::new("45.520514,-73.582707");
    assert!(coord.is_ok());
    let coords = coord.get_coord_for_file("photo.jpg");
    assert_eq!(
        coords,
        ("45,31.230840N".to_owned(), "73,34.962420W".to_owned())
    );
}

#[test]
fn test_format_hemispheres() {
    let pos = DecimalDegrees {
        negative: false,
        whole: 1,
        frac_e10: 0,
        frac_rest_nonzero: false,
    };
    let neg = DecimalDegrees {
        negative: true,
        whole: 1,
        frac_e10: 0,
        frac_rest_nonzero: false,
    };
    assert_eq!(dd_to_dmfract(&pos, true), "1,0.000000N");
    assert_eq!(dd_to_dmfract(&neg, true), "1,0.000000S");
    assert_eq!(dd_to_dmfract(&pos, false), "1,0.000000E");
    assert_eq!(dd_to_dmfract(&neg, false), "1,0.000000W");
}

#[test]
fn test_format_rounds_half_up() {
    // 0.25 * 10^-6 degrees of fraction: 15 * 10^-6 minutes round down;
    // half a micro-minute rounds up.
    let down = DecimalDegrees {
        negative: false,
        whole: 0,
        frac_e10: 40,
        frac_rest_nonzero: false,
    };
    assert_eq!(dd_to_dmfract(&down, true), "0,0.000000N");
    let up = DecimalDegrees {
        negative: false,
        whole: 0,
        frac_e10: 84,
        frac_rest_nonzero: false,
    };
    assert_eq!(dd_to_dmfract(&up, true), "0,0.000001N");
}

#[test]
fn test_parse_degrees_plain() {
    let a = parse_degrees("12.34", 0, 5).unwrap();
    assert!(!a.negative);
    assert_eq!(a.whole, 12);
    assert_eq!(a.frac_e10, 3400000000);

    let b = parse_degrees("-0.5", 0, 4).unwrap();
    assert!(b.negative);
    assert_eq!(b.whole, 0);
    assert_eq!(b.frac_e10, 5000000000);

    let c = parse_degrees("+7", 0, 2).unwrap();
    assert!(!c.negative);
    assert_eq!(c.whole, 7);
    assert_eq!(c.frac_e10, 0);

    let d = parse_degrees(".5", 0, 2).unwrap();
    assert_eq!(d.whole, 0);
    assert_eq!(d.frac_e10, 5000000000);

    let e = parse_degrees("5.", 0, 2).unwrap();
    assert_eq!(e.whole, 5);
    assert_eq!(e.frac_e10, 0);
}

#[test]
fn test_parse_degrees_rejects() {
    assert!(parse_degrees("", 0, 0).is_none());
    assert!(parse_degrees(".", 0, 1).is_none());
    assert!(parse_degrees("-", 0, 1).is_none());
    assert!(parse_degrees("1.2.3", 0, 5).is_none());
    assert!(parse_degrees("1e5", 0, 3).is_none());
    assert!(parse_degrees("NaN", 0, 3).is_none());
    assert!(parse_degrees("12 ", 0, 3).is_none());
}

#[test]
fn test_parse_degrees_truncates_to_ten_digits() {
    let a = parse_degrees("0.12345678901", 0, 13).unwrap();
    assert_eq!(a.frac_e10, 1234567890);
    assert!(a.frac_rest_nonzero);
    let b = parse_degrees("0.12345678900", 0, 13).unwrap();
    assert_eq!(b.frac_e10, 1234567890);
    assert!(!b.frac_rest_nonzero);
}

#[test]
fn test_minus_zero_is_not_negative() {
    // Zero takes the non-negative hemisphere whatever its written sign.
    let a = parse_degrees("-0", 0, 2).unwrap();
    assert!(!a.negative);
    let b = parse_degrees("-0.000", 0, 6).unwrap();
    assert!(!b.negative);
    let coord = CoordTagger::new("-0,-0.0");
    assert!(coord.is_ok());
    let coords = coord.get_coord_for_file("photo.jpg");
    assert_eq!(coords, ("0,0.000000N".to_owned(), "0,0.000000E".to_owned()));
    // A genuinely negative value below the model's resolution keeps its
    // sign even though the stored magnitude is zero.
    let c = parse_degrees("-0.00000000001", 0, 14).unwrap();
    assert!(c.negative);
    assert_eq!(c.frac_e10, 0);
    assert!(c.frac_rest_nonzero);
}

#[test]
fn test_latitude_boundary_is_exact() {
    // Exactly 90 passes, however many zero digits follow; any nonzero
    // fractional digit — even past the tenth — pushes it out of range.
    assert!(CoordTagger::new("90.0000000000000,0").is_ok());
    assert!(CoordTagger::new("-90.0,0").is_ok());
    assert!(!CoordTagger::new("90.00000000001,0").is_ok());
    assert!(!CoordTagger::new("-90.00000000000001,0").is_ok());
}

#[test]
fn test_usability_ranges() {
    assert!(CoordTagger::new("90,179.9999999999").is_ok());
    assert!(CoordTagger::new("-90,-179.9999999999").is_ok());
    assert!(CoordTagger::new("90.0000000001,0").is_ok() == false);
    assert!(!CoordTagger::new("0,180").is_ok());
    assert!(!CoordTagger::new("0,-180").is_ok());
    assert!(CoordTagger::new("0,179.5").is_ok());
    assert!(!CoordTagger::new("91,0").is_ok());
}

#[test]
fn test_usability_token_shapes() {
    assert!(!CoordTagger::new("").is_ok());
    assert!(!CoordTagger::new("12.34").is_ok());
    assert!(!CoordTagger::new("1,2,3").is_ok());
    assert!(!CoordTagger::new("abc,12").is_ok());
    assert!(!CoordTagger::new("12,abc").is_ok());
    assert!(!CoordTagger::new(",12").is_ok());
    assert!(!CoordTagger::new("12,").is_ok());
    let empty = CoordTagger::new("1,2,3");
    let coords = empty.get_coord_for_file("any/path.jpg");
    assert_eq!(coords, (String::new(), String::new()));
}

#[test]
fn test_literal_source_is_file_independent() {
    let coord = CoordTagger::new("12.34,-45.54");
    let a = coord.get_coord_for_file("a.jpg");
    let b = coord.get_coord_for_file("elsewhere/b.png");
    assert_eq!(a, b);
}
