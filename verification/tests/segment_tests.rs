use slice::segment::{Delimited, LinesWithEol};

#[test]
fn empty_lines_with_eol() {
    let mut lines = LinesWithEol::new(b"".to_vec());
    assert!(lines.next().is_none());
}

#[test]
fn lines_with_eol() {
    let mut lines = LinesWithEol::new(b"1\n2\n".to_vec());
    assert_eq!(b"1\n", lines.next().unwrap().as_slice());
    assert_eq!(b"2\n", lines.next().unwrap().as_slice());
    assert!(lines.next().is_none());
}

#[test]
fn lines_without_eol() {
    let mut lines = LinesWithEol::new(b"1\n2".to_vec());
    assert_eq!(b"1\n", lines.next().unwrap().as_slice());
    assert_eq!(b"2", lines.next().unwrap().as_slice());
    assert!(lines.next().is_none());
}

#[test]
fn empty_delimit_by_empty() {
    let mut delimited = Delimited::new(b"".to_vec(), b"".to_vec());
    assert!(delimited.next().is_none());
}

#[test]
fn empty_delimit_by_character() {
    let mut delimited = Delimited::new(b"".to_vec(), b"|".to_vec());
    assert!(delimited.next().is_none());
}

#[test]
fn empty_delimit_by_string() {
    let mut delimited = Delimited::new(b"".to_vec(), b"||".to_vec());
    assert!(delimited.next().is_none());
}

#[test]
fn delimit_by_empty() {
    let mut delimited = Delimited::new(b"a|b|".to_vec(), b"".to_vec());
    assert_eq!(b"a", delimited.next().unwrap().as_slice());
    assert_eq!(b"|", delimited.next().unwrap().as_slice());
    assert_eq!(b"b", delimited.next().unwrap().as_slice());
    assert_eq!(b"|", delimited.next().unwrap().as_slice());
    assert!(delimited.next().is_none());
}

#[test]
fn delimit_by_character() {
    let mut delimited = Delimited::new(b"a|b|".to_vec(), b"|".to_vec());
    assert_eq!(b"a|", delimited.next().unwrap().as_slice());
    assert_eq!(b"b|", delimited.next().unwrap().as_slice());
    assert!(delimited.next().is_none());
}

#[test]
fn delimit_by_string() {
    let mut delimited = Delimited::new(b"a|||b|".to_vec(), b"||".to_vec());
    assert_eq!(b"a||", delimited.next().unwrap().as_slice());
    assert_eq!(b"|b|", delimited.next().unwrap().as_slice());
    assert!(delimited.next().is_none());
}

#[test]
fn delimiter_ending_exactly_at_stream_end() {
    let mut delimited = Delimited::new(b"a||".to_vec(), b"||".to_vec());
    assert_eq!(b"a||", delimited.next().unwrap().as_slice());
    assert!(delimited.next().is_none());
}
