use grep_bin::search::{effective_block_size, Searcher};
use grep_bin::window::{group_occurrences, Match};

fn ranges(m: &Match) -> Vec<std::ops::Range<usize>> {
    m.indexes_to_paint.clone()
}

#[test]
fn byte_pattern_gives_one_short_window() {
    let file = [0x00, 0x01, 0x00, 0xFF, 0xFE, 0x00, 0xA4, 0x00];
    let s = Searcher::new(&[0xFF, 0xFE, 0x00], 16, 0);
    let w = s.search(&file);
    assert_eq!(w.len(), 1);
    assert_eq!(w[0].offset, 0);
    assert_eq!(w[0].bytes, file.to_vec());
    assert_eq!(ranges(&w[0]), vec![3..6]);
}

#[test]
fn string_pattern_gives_three_ranges_in_one_window() {
    let file = b"AABAACAADAABAABA";
    let s = Searcher::new(b"AABA", 16, 0);
    let w = s.search(file);
    assert_eq!(w.len(), 1);
    assert_eq!(w[0].offset, 0);
    assert_eq!(w[0].bytes, file.to_vec());
    assert_eq!(ranges(&w[0]), vec![0..4, 9..13, 12..16]);
}

#[test]
fn match_across_block_end_is_split() {
    let mut file = vec![b'.'; 20];
    file[14..18].copy_from_slice(b"WXYZ");
    let s = Searcher::new(b"WXYZ", 16, 0);
    let w = s.search(&file);
    assert_eq!(w.len(), 2);
    assert_eq!(w[0].offset, 0);
    assert_eq!(ranges(&w[0]), vec![14..16]);
    assert_eq!(w[0].bytes, file[0..16].to_vec());
    assert_eq!(w[1].offset, 16);
    assert_eq!(ranges(&w[1]), vec![0..2]);
    assert_eq!(w[1].bytes, file[16..20].to_vec());
    let a = &w[0].indexes_to_paint[0];
    let b = &w[1].indexes_to_paint[0];
    assert_eq!((a.end - a.start) + (b.end - b.start), 4);
}

#[test]
fn empty_file_has_no_windows() {
    let s = Searcher::new(b"AB", 16, 0);
    assert!(s.search(b"").is_empty());
}

#[test]
fn absent_pattern_has_no_windows() {
    let s = Searcher::new(b"ZZ", 16, 0);
    assert!(s.search(b"AABAACAADAABAABA").is_empty());
}

#[test]
fn skip_past_end_has_no_windows() {
    let s = Searcher::new(b"AB", 16, 10);
    assert!(s.search(b"ABAB").is_empty());
}

#[test]
fn searching_twice_gives_the_same_windows() {
    let mut file = Vec::new();
    for i in 0..300u32 {
        file.push(b"ABC"[(i * 7 % 3) as usize]);
    }
    let s = Searcher::new(b"CAB", 5, 2);
    let a = s.search(&file);
    let b = s.search(&file);
    assert!(!a.is_empty());
    assert_eq!(a.len(), b.len());
    for (x, y) in a.iter().zip(b.iter()) {
        assert_eq!(x.offset, y.offset);
        assert_eq!(x.indexes_to_paint, y.indexes_to_paint);
        assert_eq!(x.bytes, y.bytes);
    }
}

#[test]
fn windows_are_increasing_and_ranges_inside() {
    let mut file = Vec::new();
    for i in 0..500u32 {
        file.push(b"AB"[((i * i + i / 3) % 2) as usize]);
    }
    for block in [1usize, 3, 4, 7, 16] {
        let s = Searcher::new(b"ABA", block, 0);
        let w = s.search(&file);
        assert!(!w.is_empty());
        for k in 1..w.len() {
            assert!(w[k - 1].offset < w[k].offset);
        }
        for m in &w {
            assert_eq!(m.offset % block, 0);
            for r in &m.indexes_to_paint {
                if block >= 3 {
                    assert!(r.start < r.end && r.end <= m.bytes.len());
                }
            }
        }
    }
}

#[test]
fn block_size_is_clamped_to_file() {
    assert_eq!(effective_block_size(16, 8), 8);
    assert_eq!(effective_block_size(0, 8), 8);
    assert_eq!(effective_block_size(4, 8), 4);
    assert_eq!(effective_block_size(8, 8), 8);
}

#[test]
fn grouping_merges_and_splits() {
    let w = group_occurrences(&vec![2, 6, 9], 4, 8);
    assert_eq!(w.len(), 2);
    assert_eq!(w[0].offset, 0);
    assert_eq!(w[0].indexes_to_paint, vec![2..6, 6..8]);
    assert_eq!(w[1].offset, 8);
    assert_eq!(w[1].indexes_to_paint, vec![0..2, 1..5]);
}

#[test]
fn streamed_windows_match_in_memory_search() {
    let mut file = vec![b'.'; 40];
    file[14..18].copy_from_slice(b"WXYZ");
    file[30..34].copy_from_slice(b"WXYZ");
    let mut s = Searcher::new(b"WXYZ", 16, 0);
    for chunk in file.chunks(5) {
        s.feed(chunk);
    }
    let w = s.windows(file.len());
    let full = s.search(&file);
    assert_eq!(w.len(), full.len());
    for (x, y) in w.iter().zip(full.iter()) {
        assert_eq!(x.offset, y.offset);
        assert_eq!(x.indexes_to_paint, y.indexes_to_paint);
        assert!(x.bytes.is_empty());
    }
}
