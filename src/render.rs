//! The text of a hex dump: for each window an address, the bytes in hexadecimal and
//! the bytes as ASCII, with the matched bytes in bold red.
use std::ops::Range;
use vstd::prelude::*;

use crate::pattern::{chars_of, string_of};
use crate::window::Match;

verus! {

/// The escape sequence that ends a coloured span.
pub open spec fn reset_code() -> Seq<char> {
    seq!['\x1b', '[', '0', 'm']
}

/// `s` in bold red on an ANSI terminal.
pub open spec fn red_bold(s: Seq<char>) -> Seq<char> {
    seq!['\x1b', '[', '1', ';', '3', '1', 'm'] + s + reset_code()
}

/// `s` in green on an ANSI terminal.
pub open spec fn green(s: Seq<char>) -> Seq<char> {
    seq!['\x1b', '[', '3', '2', 'm'] + s + reset_code()
}

/// Relies on ansi_term's `Style::paint` for `Colour::Red.bold()`, displayed: the prefix
/// `ESC[1;31m`, the text, and the reset `ESC[0m`.
#[verifier::external_body]
fn paint_red_bold(s: &str) -> (r: String)
    ensures
        r@ == red_bold(s@),
{
    ansi_term::Colour::Red.bold().paint(s).to_string()
}

/// Relies on ansi_term's `Colour::paint` for `Colour::Green`, displayed: the prefix
/// `ESC[32m`, the text, and the reset `ESC[0m`.
#[verifier::external_body]
fn paint_green(s: &str) -> (r: String)
    ensures
        r@ == green(s@),
{
    ansi_term::Colour::Green.paint(s).to_string()
}

/// The upper-case hexadecimal digit of `d`, below 16.
pub open spec fn hex_digit_char(d: int) -> char {
    if d < 10 {
        (48 + d) as char
    } else {
        (55 + d) as char
    }
}

/// `n` in upper-case hexadecimal, padded with zeros to at least `width` digits.
pub open spec fn upper_hex(n: nat, width: nat) -> Seq<char>
    decreases n + width,
{
    if n < 16 && width <= 1 {
        seq![hex_digit_char(n as int)]
    } else {
        upper_hex(n / 16, if width > 0 { (width - 1) as nat } else { 0 }) + seq![hex_digit_char((n % 16) as int)]
    }
}

/// A byte as ASCII: itself when printable, else a dot.
pub open spec fn ascii_char(b: u8) -> char {
    if 0x20 <= b <= 0x7e {
        b as char
    } else {
        '.'
    }
}

/// Position `i` lies in one of `ranges`.
pub open spec fn in_ranges(ranges: Seq<Range<usize>>, i: int) -> bool {
    exists|k: int| 0 <= k < ranges.len() && #[trigger] ranges[k].start <= i < ranges[k].end
}

/// `s`, in bold red when `on`.
pub open spec fn emphasised(s: Seq<char>, on: bool) -> Seq<char> {
    if on {
        red_bold(s)
    } else {
        s
    }
}

/// The ASCII column of the first `n` bytes.
pub open spec fn ascii_column(bytes: Seq<u8>, ranges: Seq<Range<usize>>, n: int) -> Seq<char>
    decreases n,
{
    if n <= 0 {
        Seq::empty()
    } else {
        ascii_column(bytes, ranges, n - 1) + emphasised(seq![ascii_char(bytes[n - 1])], in_ranges(ranges, n - 1))
    }
}

/// The hexadecimal column of the first `n` bytes: two digits and a space for each, and
/// one more space after every eighth byte when blocks hold at least eight.
pub open spec fn hex_column(bytes: Seq<u8>, ranges: Seq<Range<usize>>, block: int, n: int) -> Seq<char>
    decreases n,
{
    if n <= 0 {
        Seq::empty()
    } else {
        hex_column(bytes, ranges, block, n - 1) + emphasised(upper_hex(bytes[n - 1] as nat, 2), in_ranges(ranges, n - 1))
            + seq![' '] + if block >= 8 && n % 8 == 0 {
            seq![' ']
        } else {
            Seq::empty()
        }
    }
}

/// `n` spaces.
pub open spec fn spaces(n: int) -> Seq<char> {
    Seq::new(if n > 0 { n as nat } else { 0 }, |i: int| ' ')
}

/// The dump line of one window: its address in green, the hexadecimal column, padding
/// that aligns the ASCII column of a short window when there are several, and the
/// ASCII column between bars.
pub open spec fn dump_line(m: Match, several: bool, block: int) -> Seq<char> {
    let n = m.bytes@.len() as int;
    let pad = if several && n < block {
        spaces(block * 3 + 2 - n * 3)
    } else {
        Seq::empty()
    };
    green(upper_hex(m.offset as nat, 8)) + seq![':', ' ', ' '] + hex_column(m.bytes@, m.indexes_to_paint@, block, n)
        + pad + seq!['|'] + ascii_column(m.bytes@, m.indexes_to_paint@, n) + seq!['|']
}

/// Appends `s` to `out`.
fn append(out: &mut Vec<char>, s: &Vec<char>)
    ensures
        final(out)@ == old(out)@ + s@,
{
    let ghost start = out@;
    let mut i: usize = 0;
    while i < s.len()
        invariant
            i <= s@.len(),
            out@ == start + s@.subrange(0, i as int),
        decreases s@.len() - i,
    {
        out.push(s[i]);
        i = i + 1;
        proof {
            assert(out@ =~= start + s@.subrange(0, i as int));
        }
    }
    proof {
        assert(s@.subrange(0, i as int) =~= s@);
    }
}

/// `n` in upper-case hexadecimal, padded with zeros to at least `width` digits.
pub fn to_upper_hex(n: usize, width: usize) -> (r: Vec<char>)
    ensures
        r@ == upper_hex(n as nat, width as nat),
    decreases n + width,
{
    let d = n % 16;
    let c = if d < 10 {
        (48 + d) as u8 as char
    } else {
        (55 + d) as u8 as char
    };
    if n < 16 && width <= 1 {
        let mut r: Vec<char> = Vec::new();
        r.push(c);
        r
    } else {
        let w = if width > 0 { width - 1 } else { 0 };
        let mut r = to_upper_hex(n / 16, w);
        r.push(c);
        r
    }
}

/// Whether position `i` lies in one of `ranges`.
pub fn is_highlighted(i: usize, ranges: &[Range<usize>]) -> (r: bool)
    ensures
        r == in_ranges(ranges@, i as int),
{
    let mut k: usize = 0;
    while k < ranges.len()
        invariant
            k <= ranges@.len(),
            forall|j: int| 0 <= j < k ==> !(#[trigger] ranges@[j].start <= i < ranges@[j].end),
        decreases ranges@.len() - k,
    {
        if ranges[k].start <= i && i < ranges[k].end {
            return true;
        }
        k = k + 1;
    }
    false
}

/// `s`, in bold red when `on`.
fn emphasise(s: &Vec<char>, on: bool) -> (r: Vec<char>)
    ensures
        r@ == emphasised(s@, on),
{
    let t = string_of(s);
    if on {
        let p = paint_red_bold(t.as_str());
        chars_of(p.as_str())
    } else {
        chars_of(t.as_str())
    }
}

/// The ASCII column of `bytes`: printable bytes as themselves, others as dots, the
/// bytes in `indexes_to_paint` in bold red.
pub fn bytes_to_ascii_colored_repr(bytes: &[u8], indexes_to_paint: &[Range<usize>]) -> (r: String)
    ensures
        r@ == ascii_column(bytes@, indexes_to_paint@, bytes@.len() as int),
{
    let mut out: Vec<char> = Vec::new();
    let mut i: usize = 0;
    while i < bytes.len()
        invariant
            i <= bytes@.len(),
            out@ == ascii_column(bytes@, indexes_to_paint@, i as int),
        decreases bytes@.len() - i,
    {
        let b = bytes[i];
        let c = if 0x20 <= b && b <= 0x7e { b as char } else { '.' };
        let mut cell: Vec<char> = Vec::new();
        cell.push(c);
        let hl = is_highlighted(i, indexes_to_paint);
        let e = emphasise(&cell, hl);
        append(&mut out, &e);
        proof {
            assert(cell@ =~= seq![ascii_char(bytes@[i as int])]);
        }
        i = i + 1;
    }
    string_of(&out)
}

/// The hexadecimal column of `bytes`: two upper-case digits and a space for each byte,
/// one more space after every eighth byte when `blocks_size` is at least eight, the
/// bytes in `indexes_to_paint` in bold red.
pub fn bytes_as_hex_colored(bytes: &[u8], indexes_to_paint: &[Range<usize>], blocks_size: usize) -> (r: Vec<char>)
    ensures
        r@ == hex_column(bytes@, indexes_to_paint@, blocks_size as int, bytes@.len() as int),
{
    let mut out: Vec<char> = Vec::new();
    let mut i: usize = 0;
    while i < bytes.len()
        invariant
            i <= bytes@.len(),
            out@ == hex_column(bytes@, indexes_to_paint@, blocks_size as int, i as int),
        decreases bytes@.len() - i,
    {
        let digits = to_upper_hex(bytes[i] as usize, 2);
        let hl = is_highlighted(i, indexes_to_paint);
        let e = emphasise(&digits, hl);
        append(&mut out, &e);
        out.push(' ');
        if blocks_size >= 8 && (i + 1) % 8 == 0 {
            out.push(' ');
        }
        i = i + 1;
        proof {
            let n = i as int;
            let prev = hex_column(bytes@, indexes_to_paint@, blocks_size as int, n - 1);
            let cell = emphasised(upper_hex(bytes@[n - 1] as nat, 2), in_ranges(indexes_to_paint@, n - 1));
            if blocks_size >= 8 && n % 8 == 0 {
                assert(out@ =~= prev + cell + seq![' '] + seq![' ']);
            } else {
                assert(out@ =~= prev + cell + seq![' '] + Seq::<char>::empty());
            }
        }
    }
    out
}

/// The lines of a hex dump of `matches`, one per window, with blocks of
/// `context_bytes_size` bytes.
pub fn hexdump_lines(matches: &[Match], context_bytes_size: usize) -> (r: Vec<String>)
    requires
        context_bytes_size * 3 + 2 <= usize::MAX,
    ensures
        r@.len() == matches@.len(),
        forall|i: int|
            0 <= i < r@.len() ==> (#[trigger] r@[i])@ == dump_line(
                matches@[i],
                matches@.len() >= 2,
                context_bytes_size as int,
            ),
{
    let several = matches.len() >= 2;
    let mut lines: Vec<String> = Vec::new();
    let mut i: usize = 0;
    while i < matches.len()
        invariant
            i <= matches@.len(),
            several == (matches@.len() >= 2),
            context_bytes_size * 3 + 2 <= usize::MAX,
            lines@.len() == i,
            forall|k: int|
                0 <= k < i ==> (#[trigger] lines@[k])@ == dump_line(matches@[k], several, context_bytes_size as int),
        decreases matches@.len() - i,
    {
        let m = &matches[i];
        let addr = to_upper_hex(m.offset, 8);
        let addr_s = string_of(&addr);
        let g = paint_green(addr_s.as_str());
        let mut out = chars_of(g.as_str());
        out.push(':');
        out.push(' ');
        out.push(' ');
        let hex = bytes_as_hex_colored(m.bytes.as_slice(), m.indexes_to_paint.as_slice(), context_bytes_size);
        append(&mut out, &hex);
        let n = m.bytes.len();
        let ghost before_pad = out@;
        if several && n < context_bytes_size {
            let total = context_bytes_size * 3 + 2 - n * 3;
            let mut k: usize = 0;
            while k < total
                invariant
                    k <= total,
                    out@ == before_pad + spaces(k as int),
                decreases total - k,
            {
                out.push(' ');
                k = k + 1;
                proof {
                    assert(out@ =~= before_pad + spaces(k as int));
                }
            }
        } else {
            proof {
                assert(out@ =~= before_pad + Seq::<char>::empty());
            }
        }
        out.push('|');
        let ascii = bytes_to_ascii_colored_repr(m.bytes.as_slice(), m.indexes_to_paint.as_slice());
        let ac = chars_of(ascii.as_str());
        append(&mut out, &ac);
        out.push('|');
        proof {
            let pad = if several && n < context_bytes_size {
                spaces(context_bytes_size * 3 + 2 - n * 3)
            } else {
                Seq::empty()
            };
            assert(out@ =~= green(upper_hex(m.offset as nat, 8)) + seq![':', ' ', ' '] + hex_column(
                m.bytes@,
                m.indexes_to_paint@,
                context_bytes_size as int,
                n as int,
            ) + pad + seq!['|'] + ascii_column(m.bytes@, m.indexes_to_paint@, n as int) + seq!['|']);
        }
        lines.push(string_of(&out));
        i = i + 1;
    }
    lines
}

} // verus!
