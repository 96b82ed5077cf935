use slice::modes::{run_mode, Mode};
use slice::range::SliceRange;
use slice::stream::{run_mode_chunked, StreamSlicer};

fn chunked(mode: &Mode, chunks: &[&[u8]], spec: &str) -> Vec<u8> {
    let owned: Vec<Vec<u8>> = chunks.iter().map(|c| c.to_vec()).collect();
    run_mode_chunked(mode, &owned, &SliceRange::from_str(spec).unwrap())
}

fn whole(mode: &Mode, input: &[u8], spec: &str) -> Vec<u8> {
    run_mode(mode, input, &SliceRange::from_str(spec).unwrap())
}

#[test]
fn chunked_matches_whole_line_mode() {
    let input = b"l0\nl1\nl2\nl3\nl4\n";
    for spec in ["::", "1:", ":2", "1:4:2", "::3", "2:+2"] {
        let split: Vec<&[u8]> = vec![&input[..4], &input[4..5], &input[5..]];
        assert_eq!(chunked(&Mode::Lines, &split, spec), whole(&Mode::Lines, input, spec));
    }
}

#[test]
fn chunked_matches_whole_character_mode() {
    let input = b"abcdefgh";
    for spec in ["::", "3:", ":5", "1:7:3"] {
        let split: Vec<&[u8]> = vec![&input[..1], &input[1..6], &input[6..]];
        assert_eq!(
            chunked(&Mode::Characters, &split, spec),
            whole(&Mode::Characters, input, spec)
        );
    }
}

#[test]
fn delimiter_split_across_chunks() {
    let mode = Mode::Delimiter(b"||".to_vec());
    let input = b"a|||b|";
    let split: Vec<&[u8]> = vec![b"a|", b"||", b"b|"];
    assert_eq!(chunked(&mode, &split, "::"), b"a|||b|");
    assert_eq!(chunked(&mode, &split, ":1"), b"a||");
    assert_eq!(chunked(&mode, &split, "1:2"), b"|b|");
    assert_eq!(chunked(&mode, &split, "::"), whole(&mode, input, "::"));
}

#[test]
fn chunked_empty_stream() {
    assert_eq!(chunked(&Mode::Lines, &[], "::"), b"");
    assert_eq!(chunked(&Mode::Lines, &[b"", b""], "::"), b"");
}

#[test]
fn tokens_come_out_before_the_stream_ends() {
    let range = SliceRange::from_str("::").unwrap();
    let mut slicer = StreamSlicer::new(b"|".to_vec(), &range);
    slicer.feed(b"a|b");
    assert_eq!(slicer.next_output(false).unwrap(), b"a|".to_vec());
    assert!(slicer.next_output(false).is_none());
    slicer.feed(b"|c");
    assert_eq!(slicer.next_output(false).unwrap(), b"b|".to_vec());
    assert!(slicer.next_output(false).is_none());
    assert_eq!(slicer.next_output(true).unwrap(), b"c".to_vec());
    assert!(slicer.next_output(true).is_none());
}

#[test]
fn reading_can_stop_once_the_slice_is_complete() {
    let range = SliceRange::from_str(":1").unwrap();
    let mut slicer = StreamSlicer::new(b"\n".to_vec(), &range);
    assert!(!slicer.finished());
    slicer.feed(b"first\nsecond\n");
    assert_eq!(slicer.next_output(false).unwrap(), b"first\n".to_vec());
    assert!(slicer.next_output(false).is_none());
    assert!(slicer.finished());
}

#[test]
fn stream_drains_unterminated_tail_only_at_end() {
    let range = SliceRange::from_str("::").unwrap();
    let mut slicer = StreamSlicer::new(b"\n".to_vec(), &range);
    slicer.feed(b"whole line\npartial");
    assert_eq!(slicer.next_output(false).unwrap(), b"whole line\n".to_vec());
    assert!(slicer.next_output(false).is_none());
    assert_eq!(slicer.next_output(true).unwrap(), b"partial".to_vec());
    assert!(slicer.next_output(true).is_none());
}
