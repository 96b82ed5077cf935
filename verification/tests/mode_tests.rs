use slice::modes::{character_mode, line_mode};
use slice::range::SliceRange;

#[test]
fn main_empty() {
    let out = line_mode(b"".as_slice(), &SliceRange::from_str("::").unwrap());
    assert_eq!(out, b"");
}

#[test]
fn main_no_slice() {
    let out = line_mode(
        b"slice command is simple string slicing command.\n".as_slice(),
        &SliceRange::from_str("::").unwrap(),
    );
    assert_eq!(out, b"slice command is simple string slicing command.\n");
}

#[test]
fn main_skip_first() {
    let out = line_mode(
        b"slice command is simple string slicing command.\n".as_slice(),
        &SliceRange::from_str("1:").unwrap(),
    );
    assert_eq!(out, b"");
}

#[test]
fn skip_over_input() {
    let out = line_mode(
        b"slice command is simple string slicing command.\n".as_slice(),
        &SliceRange::from_str("2:").unwrap(),
    );
    assert_eq!(out, b"");
}

#[test]
fn drop_tail() {
    let out = line_mode(
        b"slice command is simple string slicing command.\n".as_slice(),
        &SliceRange::from_str(":0").unwrap(),
    );
    assert_eq!(out, b"");
}

#[test]
fn main_step_two_slice() {
    let out = line_mode(
        b"slice command is simple string slicing command.\n".as_slice(),
        &SliceRange::from_str("::2").unwrap(),
    );
    assert_eq!(out, b"slice command is simple string slicing command.\n");
}

#[test]
fn multi_line_no_slice() {
    let out = line_mode(
        b"slice command is simple string slicing command.\nLike a python slice syntax.\n"
            .as_slice(),
        &SliceRange::from_str("::").unwrap(),
    );
    assert_eq!(
        out,
        b"slice command is simple string slicing command.\nLike a python slice syntax.\n"
    );
}

#[test]
fn multi_line_skip_first() {
    let out = line_mode(
        b"slice command is simple string slicing command.\nLike a python slice syntax.\n"
            .as_slice(),
        &SliceRange::from_str("1:").unwrap(),
    );
    assert_eq!(out, b"Like a python slice syntax.\n");
}

#[test]
fn main_drop_last() {
    let out = line_mode(
        b"slice command is simple string slicing command.\nLike a python slice syntax.\n"
            .as_slice(),
        &SliceRange::from_str(":1").unwrap(),
    );
    assert_eq!(out, b"slice command is simple string slicing command.\n");
}

#[test]
fn multi_line_step_two_slice() {
    let out = line_mode(
        b"slice command is simple string slicing command.\nLike a python slice syntax.\n"
            .repeat(5)
            .as_slice(),
        &SliceRange::from_str("::2").unwrap(),
    );
    assert_eq!(out, b"slice command is simple string slicing command.\n".repeat(5));
}

#[test]
fn without_linebreak() {
    let out = line_mode(
        b"slice command is simple string slicing command.\nLike a python slice syntax."
            .as_slice(),
        &SliceRange::from_str("::").unwrap(),
    );
    assert_eq!(
        out,
        b"slice command is simple string slicing command.\nLike a python slice syntax."
    );
}

#[test]
fn binary_stream() {
    let out = line_mode(
        b"slice\xaabinary stream\nslice binary\xaastream".as_slice(),
        &SliceRange::from_str("::").unwrap(),
    );
    assert_eq!(out, b"slice\xaabinary stream\nslice binary\xaastream");
}

#[test]
fn character_empty() {
    let out = character_mode(b"".as_slice(), &SliceRange::from_str("::").unwrap());
    assert_eq!(out, b"");
}

#[test]
fn character_no_slice() {
    let out = character_mode(
        b"slice command is simple string slicing command.\nLike a python slice syntax.\n"
            .as_slice(),
        &SliceRange::from_str("::").unwrap(),
    );
    assert_eq!(
        out,
        b"slice command is simple string slicing command.\nLike a python slice syntax.\n"
    );
}

#[test]
fn character_skip_first() {
    let out = character_mode(
        b"slice command is simple string slicing command.\nLike a python slice syntax.\n"
            .as_slice(),
        &SliceRange::from_str("10:").unwrap(),
    );
    assert_eq!(out, b"and is simple string slicing command.\nLike a python slice syntax.\n");
}

#[test]
fn character_drop_last() {
    let out = character_mode(
        b"slice command is simple string slicing command.\nLike a python slice syntax.\n"
            .as_slice(),
        &SliceRange::from_str(":15").unwrap(),
    );
    assert_eq!(out, b"slice command i");
}

#[test]
fn skip_first_and_drop_last() {
    let out = character_mode(
        b"slice command is simple string slicing command.\nLike a python slice syntax.\n"
            .as_slice(),
        &SliceRange::from_str("5:15").unwrap(),
    );
    assert_eq!(out, b" command i");
}

#[test]
fn skip_two_slice() {
    let out = character_mode(
        b"slice command is simple string slicing command.\nLike a python slice syntax.\n"
            .as_slice(),
        &SliceRange::from_str("::2").unwrap(),
    );
    assert_eq!(out, b"siecmadi ipesrn lcn omn.Lk  yhnsiesna.");
}
