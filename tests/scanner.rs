use grep_bin::search::Searcher;

fn starts(v: &[std::ops::Range<usize>]) -> Vec<usize> {
    v.iter().map(|r| r.start).collect()
}

fn naive(src: &[u8], p: &[u8]) -> Vec<usize> {
    let mut r = Vec::new();
    if src.len() >= p.len() {
        for s in 0..=(src.len() - p.len()) {
            if &src[s..s + p.len()] == p {
                r.push(s);
            }
        }
    }
    r
}

fn sample() -> Vec<u8> {
    let mut v = Vec::new();
    let mut x: u32 = 7;
    for _ in 0..600 {
        x = x.wrapping_mul(1103515245).wrapping_add(12345);
        v.push(b"AB"[((x >> 16) % 2) as usize]);
    }
    v
}

#[test]
fn overlapping_self_matches_are_all_found() {
    let r = Searcher::search_slice(b"AAAA", b"AAA");
    assert_eq!(r, vec![0..3, 1..4]);
}

#[test]
fn search_slice_agrees_with_naive_scan() {
    let data = sample();
    for p in [&b"ABA"[..], b"AAB", b"ABAB", b"BBBB", b"A", b"ABBA"] {
        let r = Searcher::search_slice(&data, p);
        assert_eq!(starts(&r), naive(&data, p));
        assert!(r.iter().all(|x| x.end == x.start + p.len()));
    }
}

#[test]
fn string_search_finds_three() {
    let r = Searcher::search_slice(b"AABAACAADAABAABA", b"AABA");
    assert_eq!(r, vec![0..4, 9..13, 12..16]);
}

#[test]
fn byte_search_finds_one() {
    let r = Searcher::search_slice(&[0x00, 0x01, 0x00, 0xFF, 0xFE, 0x00, 0xA4, 0x00], &[0xFF, 0xFE, 0x00]);
    assert_eq!(r, vec![3..6]);
}

#[test]
fn no_match_in_empty_input() {
    assert!(Searcher::search_slice(b"", b"AB").is_empty());
}

#[test]
fn chunked_feeding_matches_single_read() {
    let data = sample();
    let pattern = b"ABAB";
    let mut whole = Searcher::new(pattern, 16, 0);
    whole.feed(&data);
    let expected = naive(&data, pattern);
    assert_eq!(whole.occurrences(), &expected);
    for size in [1usize, 2, 3, 5, 7, 64, 599, 600, 1000] {
        let mut s = Searcher::new(pattern, 16, 0);
        for chunk in data.chunks(size) {
            s.feed(chunk);
        }
        assert_eq!(s.occurrences(), &expected, "chunk size {}", size);
    }
}

#[test]
fn match_across_chunk_boundary_is_kept() {
    let mut s = Searcher::new(b"WXYZ", 16, 0);
    s.feed(b"....WX");
    s.feed(b"Y");
    s.feed(b"Z..");
    assert_eq!(s.occurrences(), &vec![4]);
}

#[test]
fn skipped_bytes_shift_offsets() {
    let data = b"ABxxABxxAB";
    let mut s = Searcher::new(b"AB", 16, 3);
    s.feed(&data[3..]);
    assert_eq!(s.occurrences(), &vec![4, 8]);
    assert_eq!(s.context_bytes_size(), 16);
}
