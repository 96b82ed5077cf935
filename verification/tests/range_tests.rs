use slice::range::{SliceRange, SpecParseError};

#[test]
fn basic() {
    let s = SliceRange::from_str("0:1:1").expect("parse failed.");
    assert_eq!(s, SliceRange { start: 0, end: 1, step: Some(1) });
}

#[test]
fn without_step() {
    let s = SliceRange::from_str("0:1").expect("parse failed.");
    assert_eq!(s, SliceRange { start: 0, end: 1, step: None });
    let s = SliceRange::from_str("0:1:").expect("parse failed.");
    assert_eq!(s, SliceRange { start: 0, end: 1, step: Some(1) });
}

#[test]
fn without_start() {
    let s = SliceRange::from_str(":1:1").expect("parse failed.");
    assert_eq!(s, SliceRange { start: 0, end: 1, step: Some(1) });
}

#[test]
fn without_end() {
    let s = SliceRange::from_str("0::1").expect("parse failed.");
    assert_eq!(s, SliceRange { start: 0, end: usize::MAX, step: Some(1) });
}

#[test]
fn without_start_and_end() {
    let s = SliceRange::from_str("::1").expect("parse failed.");
    assert_eq!(s, SliceRange { start: 0, end: usize::MAX, step: Some(1) });
}

#[test]
fn without_all() {
    let s = SliceRange::from_str(":").expect("parse failed.");
    assert_eq!(s, SliceRange { start: 0, end: usize::MAX, step: None });
    let s = SliceRange::from_str("::").expect("parse failed.");
    assert_eq!(s, SliceRange { start: 0, end: usize::MAX, step: Some(1) });
}

#[test]
fn plus_sign() {
    let s = SliceRange::from_str("1:+1").expect("parse failed.");
    assert_eq!(s, SliceRange { start: 1, end: 2, step: None });
}

#[test]
fn plus_minus_sign() {
    let s = SliceRange::from_str("100:+-10").expect("parse failed.");
    assert_eq!(s, SliceRange { start: 90, end: 110, step: None });
}

#[test]
fn range_empty() {
    assert!(SliceRange::from_str("").is_err());
}

#[test]
fn non_integer_start() {
    assert!(SliceRange::from_str("a:1").is_err());
    assert!(SliceRange::from_str("a:1:1").is_err());
}

#[test]
fn non_integer_end() {
    assert!(SliceRange::from_str("1:a").is_err());
    assert!(SliceRange::from_str("1:a:1").is_err());
}

#[test]
fn non_integer_step() {
    assert!(SliceRange::from_str("1:1:b").is_err());
}

#[test]
fn empty_is_missing_start() {
    assert!(matches!(SliceRange::from_str(""), Err(SpecParseError::MissingStart)));
}

#[test]
fn bare_start_field() {
    let s = SliceRange::from_str("5").expect("parse failed.");
    assert_eq!(s, SliceRange { start: 5, end: usize::MAX, step: None });
    let s = SliceRange::from_str("+7").expect("parse failed.");
    assert_eq!(s, SliceRange { start: 7, end: usize::MAX, step: None });
    assert!(matches!(SliceRange::from_str("x"), Err(SpecParseError::InvalidStart(_))));
}

#[test]
fn error_carries_offending_field() {
    match SliceRange::from_str("a7:1") {
        Err(SpecParseError::InvalidStart(t)) => assert_eq!(t, b"a7".to_vec()),
        _ => panic!("expected an invalid start"),
    }
    match SliceRange::from_str("1:x9") {
        Err(SpecParseError::InvalidEnd(t)) => assert_eq!(t, b"x9".to_vec()),
        _ => panic!("expected an invalid end"),
    }
    match SliceRange::from_str("1:2:y") {
        Err(SpecParseError::InvalidStep(t)) => assert_eq!(t, b"y".to_vec()),
        _ => panic!("expected an invalid step"),
    }
}

#[test]
fn zero_step_rejected() {
    assert!(matches!(SliceRange::from_str("1:2:0"), Err(SpecParseError::InvalidStep(_))));
    assert!(matches!(SliceRange::from_str("::0"), Err(SpecParseError::InvalidStep(_))));
}

#[test]
fn negative_end_rejected() {
    assert!(matches!(SliceRange::from_str("1:-2"), Err(SpecParseError::InvalidEnd(_))));
}

#[test]
fn symmetric_window_clamps_at_zero() {
    let s = SliceRange::from_str("3:+-10").expect("parse failed.");
    assert_eq!(s, SliceRange { start: 0, end: 13, step: None });
}

#[test]
fn relative_end_saturates() {
    let s = SliceRange::from_str("2:+").expect("parse failed.");
    assert_eq!(s, SliceRange { start: 2, end: usize::MAX, step: None });
    let s = SliceRange::from_str("1:+-").expect("parse failed.");
    assert_eq!(s, SliceRange { start: 0, end: usize::MAX, step: None });
}

#[test]
fn leading_plus_accepted_like_std_parse() {
    let s = SliceRange::from_str("+3:+1").expect("parse failed.");
    assert_eq!(s, SliceRange { start: 3, end: 4, step: None });
    let s = SliceRange::from_str("1:++5").expect("parse failed.");
    assert_eq!(s, SliceRange { start: 1, end: 6, step: None });
}

#[test]
fn fields_after_the_third_are_ignored() {
    let s = SliceRange::from_str("1:2:3:4").expect("parse failed.");
    assert_eq!(s, SliceRange { start: 1, end: 2, step: Some(3) });
}

#[test]
fn overflowing_number_rejected() {
    assert!(SliceRange::from_str("99999999999999999999999999:1").is_err());
}
