use cloud_raster::extent::{extent_parser, parse_scalar, ExtentError};
use cloud_raster::point::{Bounds, Vector};

fn scalar(text: &str) -> Option<i64> {
    parse_scalar(&text.chars().collect())
}

#[test]
fn six_scalars_are_two_corners() {
    assert_eq!(
        extent_parser("1,2,3,4,5,6"),
        Ok(Bounds {
            min: Vector { x: 1_000, y: 2_000, z: 3_000 },
            max: Vector { x: 4_000, y: 5_000, z: 6_000 },
        })
    );
}

#[test]
fn four_scalars_span_every_elevation() {
    assert_eq!(
        extent_parser("-1.5,2.25,10,20.125"),
        Ok(Bounds {
            min: Vector { x: -1_500, y: 2_250, z: i64::MIN },
            max: Vector { x: 10_000, y: 20_125, z: i64::MAX },
        })
    );
}

#[test]
fn extent_may_be_a_single_position() {
    assert_eq!(
        extent_parser("0,0,0,0,0,0"),
        Ok(Bounds { min: Vector { x: 0, y: 0, z: 0 }, max: Vector { x: 0, y: 0, z: 0 } })
    );
}

#[test]
fn extent_needs_four_or_six_fields() {
    for text in ["", "1", "1,2", "1,2,3", "1,2,3,4,5", "1,2,3,4,5,6,7", "1,2,3,4,", ",,,,"] {
        assert_eq!(extent_parser(text), Err(ExtentError::WrongCount));
    }
}

#[test]
fn extent_needs_scalars() {
    for text in ["1,2,3,x", "1,,3,4", "1, 2,3,4", "1,2,3,4,5,1e3", ",,,", "1,2,3,.", "1,2,-,4"] {
        assert_eq!(extent_parser(text), Err(ExtentError::BadNumber));
    }
}

#[test]
fn extent_needs_each_minimum_below_its_maximum() {
    assert_eq!(extent_parser("5,0,4,1"), Err(ExtentError::MinAboveMax));
    assert_eq!(extent_parser("0,5,1,4"), Err(ExtentError::MinAboveMax));
    assert_eq!(extent_parser("0,0,5,1,1,4"), Err(ExtentError::MinAboveMax));
    assert!(extent_parser("0,0,5,1,1,5").is_ok());
}

#[test]
fn count_is_judged_before_the_scalars_and_they_before_the_order() {
    assert_eq!(extent_parser("x,2,3"), Err(ExtentError::WrongCount));
    assert_eq!(extent_parser("9,2,3,x"), Err(ExtentError::BadNumber));
}

#[test]
fn scalar_is_read_in_thousandths() {
    assert_eq!(scalar("0"), Some(0));
    assert_eq!(scalar("12"), Some(12_000));
    assert_eq!(scalar("12.3"), Some(12_300));
    assert_eq!(scalar("12.34"), Some(12_340));
    assert_eq!(scalar("12.345"), Some(12_345));
    assert_eq!(scalar("0012.0"), Some(12_000));
    assert_eq!(scalar("-0.001"), Some(-1));
    assert_eq!(scalar("+7"), Some(7_000));
    assert_eq!(scalar("7."), Some(7_000));
    assert_eq!(scalar(".5"), Some(500));
    assert_eq!(scalar("-.5"), Some(-500));
    assert_eq!(scalar("-0"), Some(0));
}

#[test]
fn scalar_drops_digits_behind_the_third() {
    assert_eq!(scalar("1.2349"), Some(1_234));
    assert_eq!(scalar("-1.2349"), Some(-1_234));
    assert_eq!(scalar("0.00099999999999999999999999999999"), Some(0));
}

#[test]
fn scalar_of_another_form_is_none() {
    for text in [
        "", "-", "+", ".", "-.", "1.2.3", "1..2", "--1", "+-1", "1-", "1e5", "inf", "NaN", " 1",
        "1 ", "1,2", "0x10", "1_000", "١",
    ] {
        assert_eq!(scalar(text), None);
    }
}

#[test]
fn scalar_too_large_is_none() {
    assert_eq!(scalar("9223372036854775.807"), Some(i64::MAX));
    assert_eq!(scalar("-9223372036854775.807"), Some(-i64::MAX));
    assert_eq!(scalar("9223372036854775.808"), None);
    assert_eq!(scalar("-9223372036854775.808"), None);
    assert_eq!(scalar("9223372036854776"), None);
    assert_eq!(scalar("10000000000000000"), None);
    assert_eq!(scalar("100000000000000000000000000000000000000000000000000"), None);
    assert_eq!(scalar("00000000000000000000000000000000000000000000000001"), Some(1_000));
}
