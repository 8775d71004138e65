use michat::framer::{split_buffer, wire_bytes};

#[test]
fn split_two_lines_and_remainder() {
    let (lines, rem) = split_buffer(b"one\ntwo\nthree");
    assert_eq!(lines, vec![b"one".to_vec(), b"two".to_vec()]);
    assert_eq!(rem, b"three".to_vec());
}

#[test]
fn split_no_newline_is_all_remainder() {
    let (lines, rem) = split_buffer(b"partial");
    assert!(lines.is_empty());
    assert_eq!(rem, b"partial".to_vec());
}

#[test]
fn split_empty_input() {
    let (lines, rem) = split_buffer(b"");
    assert!(lines.is_empty());
    assert!(rem.is_empty());
}

#[test]
fn split_empty_lines_are_distinct_lines() {
    let (lines, rem) = split_buffer(b"\n\nx");
    assert_eq!(lines, vec![Vec::<u8>::new(), Vec::<u8>::new()]);
    assert_eq!(rem, b"x".to_vec());
}

#[test]
fn split_trailing_newline_leaves_nothing() {
    let (lines, rem) = split_buffer(b"a\nb\n");
    assert_eq!(lines, vec![b"a".to_vec(), b"b".to_vec()]);
    assert!(rem.is_empty());
}

#[test]
fn chunked_framing_matches_whole() {
    // Framing chunk by chunk, carrying the remainder forward, emits exactly
    // the lines of the concatenation, for every split point.
    let whole: &[u8] = b"alpha\nbeta\ngamma\ndelta";
    let (want_lines, want_rem) = split_buffer(whole);
    for cut in 0..whole.len() {
        let (first, second) = whole.split_at(cut);
        let (mut lines, rem) = split_buffer(first);
        let mut carried = rem;
        carried.extend_from_slice(second);
        let (more, rem2) = split_buffer(&carried);
        lines.extend(more);
        assert_eq!(lines, want_lines);
        assert_eq!(rem2, want_rem);
    }
}

#[test]
fn wire_bytes_terminates_each_line() {
    let lines = vec![b"hi".to_vec(), b"".to_vec(), b"yo".to_vec()];
    assert_eq!(wire_bytes(&lines), b"hi\n\nyo\n".to_vec());
}

#[test]
fn wire_bytes_empty() {
    assert_eq!(wire_bytes(&Vec::new()), Vec::<u8>::new());
}

#[test]
fn wire_round_trip() {
    let lines = vec![b"a".to_vec(), b"bb".to_vec()];
    let (got, rem) = split_buffer(&wire_bytes(&lines));
    assert_eq!(got, lines);
    assert!(rem.is_empty());
}
