use tac::scan_reverse;
use tac::scanner::search;
use tac::scanner::search128;
use tac::scanner::search256;
use tac::scanner::slow_search_and_print;
use tac::select_strategy;
use tac::Chunk;
use tac::Strategy;

/// Runs one scan and returns the emitted ranges as plain pairs.
fn ranges(bytes: &[u8], strategy: Strategy, align_offset: usize) -> Vec<(usize, usize)> {
    scan_reverse(bytes, strategy, align_offset)
        .into_iter()
        .map(|c| (c.start, c.end))
        .collect()
}

/// Concatenates the chunks' bytes in emission order: the visible output.
fn emitted_bytes(bytes: &[u8], strategy: Strategy, align_offset: usize) -> Vec<u8> {
    let mut out = Vec::new();
    for c in scan_reverse(bytes, strategy, align_offset) {
        out.extend_from_slice(&bytes[c.start..c.end]);
    }
    out
}

/// Every strategy and every admissible alignment offset, scalar first.
fn all_runs(bytes: &[u8]) -> Vec<Vec<Chunk>> {
    let mut runs = vec![scan_reverse(bytes, Strategy::Scalar, 0)];
    for off in 0..32 {
        runs.push(scan_reverse(bytes, Strategy::Wide, off));
    }
    for off in 0..16 {
        runs.push(scan_reverse(bytes, Strategy::Narrow, off));
    }
    runs
}

#[test]
fn empty_buffer_emits_nothing() {
    assert_eq!(scan_reverse(b"", Strategy::Scalar, 0), vec![]);
    assert_eq!(scan_reverse(b"", Strategy::Wide, 0), vec![]);
    assert_eq!(scan_reverse(b"", Strategy::Narrow, 0), vec![]);
}

#[test]
fn single_line_with_trailing_delimiter() {
    // The delimiter at index 1 emits the empty trailing chunk, then the
    // final prefix flush emits the whole line.
    assert_eq!(ranges(b"a\n", Strategy::Scalar, 0), vec![(2, 2), (0, 2)]);
    assert_eq!(emitted_bytes(b"a\n", Strategy::Scalar, 0), b"a\n".to_vec());
}

#[test]
fn two_lines_trailing_delimiter() {
    assert_eq!(
        ranges(b"a\nb\n", Strategy::Scalar, 0),
        vec![(4, 4), (2, 4), (0, 2)]
    );
    assert_eq!(
        emitted_bytes(b"a\nb\n", Strategy::Scalar, 0),
        b"b\na\n".to_vec()
    );
}

#[test]
fn no_trailing_delimiter() {
    // The last partial line comes out first, unchanged, no delimiter added.
    assert_eq!(ranges(b"a\nb", Strategy::Scalar, 0), vec![(2, 3), (0, 2)]);
    assert_eq!(emitted_bytes(b"a\nb", Strategy::Scalar, 0), b"ba\n".to_vec());
}

#[test]
fn delimiter_only_buffer() {
    assert_eq!(ranges(b"\n", Strategy::Scalar, 0), vec![(1, 1), (0, 1)]);
    assert_eq!(ranges(b"\n\n", Strategy::Scalar, 0), vec![(2, 2), (1, 2), (0, 1)]);
}

#[test]
fn one_window_minus_one_without_delimiters() {
    // One vector width minus one byte of non-delimiters: too short for any
    // window loop, so only the scalar splicing path runs, and the single
    // chunk is the whole buffer.
    let bytes = vec![b'x'; 31];
    for run in all_runs(&bytes) {
        assert_eq!(run, vec![Chunk { start: 0, end: 31 }]);
    }
    let bytes = vec![b'x'; 63];
    for run in all_runs(&bytes) {
        assert_eq!(run, vec![Chunk { start: 0, end: 63 }]);
    }
}

#[test]
fn two_windows_single_delimiter_at_midpoint() {
    // Two vector widths with one delimiter exactly in the middle: exercises
    // the unaligned splice and a full window, and the boundary must land on
    // the delimiter whatever strategy ran.
    let mut bytes = vec![b'x'; 64];
    bytes[32] = b'\n';
    for run in all_runs(&bytes) {
        assert_eq!(
            run,
            vec![Chunk { start: 33, end: 64 }, Chunk { start: 0, end: 33 }]
        );
    }
}

#[test]
fn strategy_selection_prefers_wider() {
    assert_eq!(select_strategy(true, true), Strategy::Wide);
    assert_eq!(select_strategy(true, false), Strategy::Wide);
    assert_eq!(select_strategy(false, true), Strategy::Narrow);
    assert_eq!(select_strategy(false, false), Strategy::Scalar);
}

/// A deterministic pseudo-random buffer with delimiters sprinkled in.
fn mixed_buffer(len: usize, stride: u32) -> Vec<u8> {
    let mut bytes = Vec::with_capacity(len);
    let mut state: u32 = 1;
    for _ in 0..len {
        state = state.wrapping_mul(1103515245).wrapping_add(stride);
        let byte = (state >> 16) as u8;
        bytes.push(if byte % 7 == 0 { b'\n' } else { byte | 1 });
    }
    bytes
}

#[test]
fn strategies_emit_identical_chunks() {
    for len in [1, 2, 31, 32, 33, 63, 64, 65, 96, 127, 128, 129, 200, 256, 300] {
        let bytes = mixed_buffer(len, 12345);
        let scalar = scan_reverse(&bytes, Strategy::Scalar, 0);
        for run in all_runs(&bytes) {
            assert_eq!(run, scalar);
        }
    }
}

#[test]
fn delimiters_at_window_edges() {
    // Delimiters exactly at the seams the window scanners cut at.
    let mut bytes = vec![b'x'; 200];
    for i in [0, 1, 31, 32, 63, 64, 65, 127, 128, 135, 198, 199] {
        bytes[i] = b'\n';
    }
    let scalar = scan_reverse(&bytes, Strategy::Scalar, 0);
    for run in all_runs(&bytes) {
        assert_eq!(run, scalar);
    }
}

#[test]
fn round_trip_restores_buffer() {
    // Concatenating the chunks in forward range order reproduces the
    // buffer exactly.
    for len in [0, 1, 5, 64, 150, 256] {
        let bytes = mixed_buffer(len, 777);
        for chunks in all_runs(&bytes) {
            let mut forward = Vec::new();
            for c in chunks.iter().rev() {
                forward.extend_from_slice(&bytes[c.start..c.end]);
            }
            assert_eq!(forward, bytes);
        }
    }
}

#[test]
fn rescan_of_restored_buffer_is_identical() {
    // Restoring the chunks in forward order and scanning again emits the
    // same chunk sequence.
    let bytes = mixed_buffer(190, 31);
    let chunks = scan_reverse(&bytes, Strategy::Scalar, 0);
    let mut forward = Vec::new();
    for c in chunks.iter().rev() {
        forward.extend_from_slice(&bytes[c.start..c.end]);
    }
    let again = scan_reverse(&forward, Strategy::Scalar, 0);
    assert_eq!(again, chunks);
}

#[test]
fn chunks_come_out_in_reverse_range_order() {
    let bytes = mixed_buffer(170, 99);
    for chunks in all_runs(&bytes) {
        for pair in chunks.windows(2) {
            assert!(pair[0].start > pair[1].start);
            assert_eq!(pair[1].end, pair[0].start);
        }
    }
}

#[test]
fn interior_boundaries_sit_past_delimiters() {
    let bytes = mixed_buffer(170, 5);
    for chunks in all_runs(&bytes) {
        for c in &chunks {
            if c.start != 0 {
                assert_eq!(bytes[c.start - 1], b'\n');
            }
            if c.end != bytes.len() {
                assert_eq!(bytes[c.end - 1], b'\n');
            }
        }
    }
}

#[test]
fn search_matches_entry_point() {
    let bytes = mixed_buffer(80, 3);
    let mut emits = Vec::new();
    search(&bytes, &mut emits);
    assert_eq!(emits, scan_reverse(&bytes, Strategy::Scalar, 0));
}

#[test]
fn window_scanners_match_entry_point() {
    let bytes = mixed_buffer(140, 4);
    let mut emits = vec![Chunk { start: 7, end: 9 }];
    search256(&bytes, 13, &mut emits);
    let mut expected = vec![Chunk { start: 7, end: 9 }];
    expected.extend(scan_reverse(&bytes, Strategy::Scalar, 0));
    assert_eq!(emits, expected);

    let mut emits = vec![Chunk { start: 7, end: 9 }];
    search128(&bytes, 13, &mut emits);
    assert_eq!(emits, expected);
}

#[test]
fn bounded_splicer_stops_at_range_and_skips_final_emit() {
    // "x\ny": the splicer over the whole range finds the delimiter at index
    // 1, emits up to the incoming stop, lowers it, and adds no final prefix.
    let bytes = b"x\ny";
    let mut stop: usize = 3;
    let mut emits = Vec::new();
    slow_search_and_print(bytes, 0, 3, &mut stop, &mut emits);
    assert_eq!(emits, vec![Chunk { start: 2, end: 3 }]);
    assert_eq!(stop, 2);

    // Restricting the range to [2, 3) leaves the delimiter unexamined.
    let mut stop: usize = 3;
    let mut emits = Vec::new();
    slow_search_and_print(bytes, 2, 3, &mut stop, &mut emits);
    assert_eq!(emits, vec![]);
    assert_eq!(stop, 3);
}

#[test]
fn long_lines_and_empty_lines() {
    let mut text = Vec::new();
    text.extend_from_slice(&vec![b'a'; 100]);
    text.push(b'\n');
    text.push(b'\n');
    text.extend_from_slice(&vec![b'b'; 70]);
    text.push(b'\n');
    let scalar = scan_reverse(&text, Strategy::Scalar, 0);
    for run in all_runs(&text) {
        assert_eq!(run, scalar);
    }
    let mut visible = Vec::new();
    for c in &scalar {
        visible.extend_from_slice(&text[c.start..c.end]);
    }
    let mut expected = Vec::new();
    expected.extend_from_slice(&vec![b'b'; 70]);
    expected.push(b'\n');
    expected.push(b'\n');
    expected.extend_from_slice(&vec![b'a'; 100]);
    expected.push(b'\n');
    assert_eq!(visible, expected);
}
