use grep_bin::render::{bytes_as_hex_colored, bytes_to_ascii_colored_repr, hexdump_lines, is_highlighted, to_upper_hex};
use grep_bin::window::Match;

fn s(v: Vec<char>) -> String {
    v.into_iter().collect()
}

#[test]
fn hex_digits_are_upper_case_and_padded() {
    assert_eq!(s(to_upper_hex(255, 2)), "FF");
    assert_eq!(s(to_upper_hex(0x0A, 2)), "0A");
    assert_eq!(s(to_upper_hex(0x1A2B, 8)), "00001A2B");
    assert_eq!(s(to_upper_hex(0x123456789, 8)), "123456789");
}

#[test]
fn highlight_membership() {
    assert!(is_highlighted(3, &[1..2, 3..5]));
    assert!(!is_highlighted(5, &[1..2, 3..5]));
}

#[test]
fn ascii_column_paints_matches() {
    let r = bytes_to_ascii_colored_repr(b"A\x00b", &[0..1]);
    assert_eq!(r, "\x1b[1;31mA\x1b[0m.b");
}

#[test]
fn hex_column_groups_by_eight() {
    let bytes: Vec<u8> = (0..9).collect();
    let r = s(bytes_as_hex_colored(&bytes, &[], 16));
    assert_eq!(r, "00 01 02 03 04 05 06 07  08 ");
    let r = s(bytes_as_hex_colored(&[0xAB], &[0..1], 4));
    assert_eq!(r, "\x1b[1;31mAB\x1b[0m ");
}

#[test]
fn dump_line_pads_short_window() {
    let a = Match { offset: 0, indexes_to_paint: vec![0..1], bytes: vec![0x41, 0x42] };
    let b = Match { offset: 4, indexes_to_paint: vec![0..1], bytes: vec![0x43] };
    let lines = hexdump_lines(&[a, b], 2);
    assert_eq!(lines.len(), 2);
    assert_eq!(lines[0], "\x1b[32m00000000\x1b[0m:  \x1b[1;31m41\x1b[0m 42 |\x1b[1;31mA\x1b[0mB|");
    assert_eq!(lines[1], "\x1b[32m00000004\x1b[0m:  \x1b[1;31m43\x1b[0m      |\x1b[1;31mC\x1b[0m|");
}
