use regex_ring::RingSearcher;
use std::cell::Cell;

#[test]
fn basic() {
    let input = "The lazy dog jumps over the brown fence.";

    let mut searcher = RingSearcher::new(1024);
    searcher.add_regex_str(r"d[a-z]+g").expect("failed to compile regex");
    searcher.add_regex_str(r"The").expect("failed to compile regex");
    searcher.add_regex_str(r"\.").expect("failed to compile regex");

    let expected = [
        // search id, start position, match string
        (1, 0, "The"),
        (0, 9, "dog"),
        (2, 39, "."),
    ];

    let seen = Cell::new(0usize);
    searcher.input_matches(input.as_bytes(), |search_id, match_, data| {
        let k = seen.get();
        assert!(k < expected.len(), "too many matches");
        let (expected_id, expected_pos, expected_match_str) = expected[k];
        assert_eq!(expected_id, search_id);
        assert_eq!(expected_pos, match_.start.expect("should have a start"));
        assert!(data.eq_bytes(expected_match_str.as_bytes()));
        assert_eq!(expected_pos + expected_match_str.len(), match_.end);
        seen.set(k + 1);
    });

    assert_eq!(seen.get(), expected.len());
}
