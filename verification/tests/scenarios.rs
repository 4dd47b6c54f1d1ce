use regex_ring::{Error, RingSearcher};

fn push_all(searcher: &mut RingSearcher, bytes: &[u8]) {
    for &b in bytes {
        searcher.push(b);
        assert!(searcher.matches().is_empty());
    }
}

#[test]
fn run_in_match_states_reports_only_at_final() {
    // A pattern that stays in a match state to the very end is reported by
    // final_matches alone, covering the longest run.
    let mut searcher = RingSearcher::new(1024);
    assert_eq!(searcher.add_regex_str(r"a+").unwrap(), 0);
    push_all(&mut searcher, b"aaaa");
    let finals = searcher.final_matches();
    assert_eq!(finals.len(), 1);
    let (id, m) = finals[0];
    assert_eq!(id, 0);
    // Nothing was ever evicted, so even a run covering the whole ring has a
    // known start.
    assert_eq!(m.start, Some(0));
    assert_eq!(m.end, 4);
    assert!(searcher.match_data(&m).eq_bytes(b"aaaa"));
}

#[test]
fn interior_match_reported_after_next_byte() {
    let mut searcher = RingSearcher::new(1024);
    searcher.add_regex_str(r"abc").unwrap();
    searcher.push(b'x');
    assert!(searcher.matches().is_empty());
    searcher.push(b'a');
    assert!(searcher.matches().is_empty());
    searcher.push(b'b');
    assert!(searcher.matches().is_empty());
    searcher.push(b'c');
    assert!(searcher.matches().is_empty());
    searcher.push(b'y');
    let reports = searcher.matches();
    assert_eq!(reports.len(), 1);
    let (id, m) = reports[0];
    assert_eq!(id, 0);
    assert_eq!(m.start, Some(1));
    assert_eq!(m.end, 4);
    assert!(searcher.match_data(&m).eq_bytes(b"abc"));
}

#[test]
fn match_longer_than_capacity_loses_its_start() {
    // 10,000 a's then one b, with a 16 byte ring: the report ends at the last
    // byte, its start predates the ring, and the data is the newest 16 bytes.
    let mut searcher = RingSearcher::new(16);
    searcher.add_regex_str(r"a+b").unwrap();
    let mut input = vec![b'a'; 10000];
    input.push(b'b');
    let reports = std::cell::RefCell::new(Vec::new());
    searcher.input_matches(&input, |id, m, data| {
        reports.borrow_mut().push((id, m.start, m.end, data.to_vec()));
    });
    let mut reports = reports.into_inner();
    assert_eq!(reports.len(), 1);
    let (id, start, end, data) = reports.remove(0);
    assert_eq!(id, 0);
    assert_eq!(start, None);
    assert_eq!(end, 10001);
    assert_eq!(data.len(), 16);
    let mut expected = vec![b'a'; 15];
    expected.push(b'b');
    assert_eq!(data, expected);
}

#[test]
fn evicted_start_reported_unknown_by_matches() {
    // The run fills the whole scanned window and older bytes were already
    // evicted, so the match may extend further back than the ring can see:
    // the edge-trigger report loses its start, and the data is the window.
    let mut searcher = RingSearcher::new(4);
    searcher.add_regex_str(r"a+").unwrap();
    for &b in b"aaaaaa" {
        searcher.push(b);
        assert!(searcher.matches().is_empty());
    }
    searcher.push(b'b');
    let reports = searcher.matches();
    assert_eq!(reports.len(), 1);
    let (id, m) = reports[0];
    assert_eq!(id, 0);
    assert_eq!(m.start, None);
    assert_eq!(m.end, 6);
    assert!(searcher.match_data(&m).eq_bytes(b"aaa"));
}

#[test]
fn empty_input_reports_nothing() {
    let mut searcher = RingSearcher::new(1024);
    searcher.add_regex_str(r"a+").unwrap();
    searcher.add_regex_str(r"x").unwrap();
    assert!(searcher.matches().is_empty());
    assert!(searcher.final_matches().is_empty());
}

#[test]
fn two_patterns_report_independently() {
    // Each pattern runs its own automaton pair: the leftmost-first forward
    // automata leave their match state one byte after their first match, so
    // each slot closes its own report at its own position.
    let mut searcher = RingSearcher::new(1024);
    assert_eq!(searcher.add_regex_str(r"aa").unwrap(), 0);
    assert_eq!(searcher.add_regex_str(r"aaa").unwrap(), 1);
    let mut all = Vec::new();
    for &b in b"aaaa" {
        searcher.push(b);
        for (id, m) in searcher.matches() {
            all.push((id, m.start, m.end));
        }
    }
    for (id, m) in searcher.final_matches() {
        all.push((id, m.start, m.end));
    }
    assert_eq!(all, vec![(0, Some(0), 2), (1, Some(0), 3)]);
}

#[test]
fn no_patterns_never_reports() {
    let mut searcher = RingSearcher::new(8);
    for &b in b"anything goes" {
        searcher.push(b);
        assert!(searcher.matches().is_empty());
    }
    assert!(searcher.final_matches().is_empty());
}

#[test]
fn capacity_one_single_byte_pattern() {
    // The single matched byte still sits in the ring and nothing was ever
    // evicted, so final_matches knows the start; the data is that byte.
    let mut searcher = RingSearcher::new(1);
    searcher.add_regex_str(r"a").unwrap();
    searcher.push(b'a');
    assert!(searcher.matches().is_empty());
    let finals = searcher.final_matches();
    assert_eq!(finals.len(), 1);
    let (id, m) = finals[0];
    assert_eq!(id, 0);
    assert_eq!(m.start, Some(0));
    assert_eq!(m.end, 1);
    assert!(searcher.match_data(&m).eq_bytes(b"a"));

    // After one more byte the matched byte is already evicted, and the
    // edge-trigger drain has nothing left to recover.
    let mut searcher = RingSearcher::new(1);
    searcher.add_regex_str(r"a").unwrap();
    searcher.push(b'a');
    searcher.push(b'b');
    assert!(searcher.matches().is_empty());
    assert!(searcher.final_matches().is_empty());
}

#[test]
fn capacity_zero_retains_nothing() {
    let mut searcher = RingSearcher::new(0);
    searcher.add_regex_str(r"a").unwrap();
    searcher.push(b'a');
    assert!(searcher.matches().is_empty());
    assert!(searcher.final_matches().is_empty());
}

#[test]
fn distinct_drains_have_distinct_ends() {
    // One pattern reporting through matches and through final_matches: the
    // two reports end at different stream positions.
    let mut searcher = RingSearcher::new(1024);
    searcher.add_regex_str(r"a").unwrap();
    searcher.push(b'a');
    assert!(searcher.matches().is_empty());
    searcher.push(b'b');
    let first = searcher.matches();
    assert_eq!(first.len(), 1);
    assert_eq!(first[0].1.start, Some(0));
    assert_eq!(first[0].1.end, 1);
    searcher.push(b'a');
    assert!(searcher.matches().is_empty());
    let finals = searcher.final_matches();
    assert_eq!(finals.len(), 1);
    assert_eq!(finals[0].1.start, Some(2));
    assert_eq!(finals[0].1.end, 3);
    assert_ne!(first[0].1.end, finals[0].1.end);
}

#[test]
fn rejected_pattern_reports_invalid_regex() {
    let mut searcher = RingSearcher::new(64);
    let r = searcher.add_regex_str(r"[");
    assert!(matches!(r, Err(Error::InvalidRegex)));
    // The searcher is untouched and still usable.
    assert_eq!(searcher.add_regex_str(r"ok").unwrap(), 0);
}

#[test]
fn collected_matches_reports_in_stream_order() {
    let input = "The lazy dog jumps over the brown fence.";
    let mut searcher = RingSearcher::new(1024);
    searcher.add_regex_str(r"d[a-z]+g").unwrap();
    searcher.add_regex_str(r"The").unwrap();
    searcher.add_regex_str(r"\.").unwrap();
    let collected = searcher.collected_matches(input.as_bytes());
    let expected = [
        (1usize, Some(0usize), 3usize, "The"),
        (0, Some(9), 12, "dog"),
        (2, Some(39), 40, "."),
    ];
    assert_eq!(collected.len(), expected.len());
    for (e, (id, start, end, text)) in collected.iter().zip(expected) {
        assert_eq!(e.0, id);
        assert_eq!(e.1.start, start);
        assert_eq!(e.1.end, end);
        assert!(e.2.eq_bytes(text.as_bytes()));
    }
}
