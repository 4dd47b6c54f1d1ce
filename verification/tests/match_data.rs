use regex_ring::MatchData;

#[test]
fn to_vec_concatenates_head_then_tail() {
    let data = MatchData { head: vec![1u8, 2, 3], tail: vec![4u8, 5] };
    assert_eq!(data.to_vec(), vec![1u8, 2, 3, 4, 5]);
    assert_eq!(data.len(), 5);
}

#[test]
fn to_string_decodes_each_piece_lossily() {
    let data = MatchData { head: vec![b'A', 0xFF], tail: vec![b'B'] };
    assert_eq!(data.to_string(), "A\u{FFFD}B");
    let empty = MatchData { head: vec![], tail: vec![] };
    assert_eq!(empty.to_string(), "");
}

#[test]
fn eq_bytes_compares_the_whole_data() {
    let data = MatchData { head: vec![b'd', b'o'], tail: vec![b'g'] };
    assert!(data.eq_bytes(b"dog"));
    assert!(!data.eq_bytes(b"dot"));
    assert!(!data.eq_bytes(b"do"));
    assert!(!data.eq_bytes(b"dogs"));
    assert!(!data.eq_bytes(b"cog"));
}

#[test]
fn slice_window_clips_to_the_slice() {
    assert_eq!(regex_ring::slice_window(b"hello", 1, 3), b"el");
    assert_eq!(regex_ring::slice_window(b"hello", 0, 5), b"hello");
    assert_eq!(regex_ring::slice_window(b"hello", 2, 99), b"llo");
    assert_eq!(regex_ring::slice_window(b"hello", 99, 99), b"");
    assert_eq!(regex_ring::slice_window(b"hello", 4, 2), b"");
}
