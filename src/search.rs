//! The scanner: finds every occurrence of a pattern in a stream that arrives in
//! chunks, carrying the automaton state from one chunk to the next.
use std::ops::Range;
use vstd::prelude::*;

use crate::window::{
    all_pieces, group_occurrences, has_piece, lemma_all_pieces_within, lemma_ranges_from_pieces,
    offsets, pieces_within, ranges_in_block, windows_of_pieces, Match,
};
use crate::kmp::{
    advance, compute_toc, ends_with_prefix, is_failure_table, lemma_occurrences_extend,
    lemma_occurrences_split, lemma_prefixes_after_match, longest_border, longest_prefix_end,
    occurrences, occurrences_ending_in, occurs_at,
};

verus! {

/// A copy of a list of ranges.
fn clone_ranges(v: &Vec<Range<usize>>) -> (r: Vec<Range<usize>>)
    ensures
        r@ == v@,
{
    let mut r: Vec<Range<usize>> = Vec::new();
    let mut i: usize = 0;
    while i < v.len()
        invariant
            i <= v@.len(),
            r@ == v@.subrange(0, i as int),
        decreases v@.len() - i,
    {
        let x = &v[i];
        r.push(x.start..x.end);
        i = i + 1;
        proof {
            assert(r@ =~= v@.subrange(0, i as int));
        }
    }
    r
}

/// The values of a sequence of offsets, as integers.
pub open spec fn as_ints(v: Seq<usize>) -> Seq<int> {
    v.map_values(|x: usize| x as int)
}

/// The start offsets of a list of ranges.
pub open spec fn range_starts(v: Seq<Range<usize>>) -> Seq<int> {
    v.map_values(|r: Range<usize>| r.start as int)
}

/// Facts that hold of `t[0..n]` hold of any sequence that agrees with it there.
proof fn lemma_prefix_end_extend(p: Seq<u8>, t: Seq<u8>, u: Seq<u8>, n: int, cap: int, k: int)
    requires
        n <= t.len(),
        n <= u.len(),
        forall|i: int| 0 <= i < n ==> t[i] == u[i],
        longest_prefix_end(p, t, n, cap, k),
    ensures
        longest_prefix_end(p, u, n, cap, k),
{
    assert forall|k2: int| ends_with_prefix(p, t, n, k2) <==> #[trigger] ends_with_prefix(p, u, n, k2) by {
        if ends_with_prefix(p, t, n, k2) {
            assert forall|x: int| 0 <= x < k2 implies #[trigger] u[n - k2 + x] == p[x] by {
                assert(t[n - k2 + x] == p[x]);
            }
        }
        if ends_with_prefix(p, u, n, k2) {
            assert forall|x: int| 0 <= x < k2 implies #[trigger] t[n - k2 + x] == p[x] by {
                assert(u[n - k2 + x] == p[x]);
            }
        }
    }
}

/// A copy of `src[from..to]`.
pub fn copy_bytes(src: &[u8], from: usize, to: usize) -> (r: Vec<u8>)
    requires
        from <= to <= src@.len(),
    ensures
        r@ == src@.subrange(from as int, to as int),
{
    let mut r: Vec<u8> = Vec::new();
    let mut i: usize = from;
    while i < to
        invariant
            from <= i <= to <= src@.len(),
            r@ == src@.subrange(from as int, i as int),
        decreases to - i,
    {
        r.push(src[i]);
        i = i + 1;
        proof {
            assert(r@ =~= src@.subrange(from as int, i as int));
        }
    }
    r
}

/// Runs the automaton over `chunk`, which follows the `consumed` bytes `seen`, and
/// appends to `found` the start offsets, shifted by `base`, of the occurrences that
/// end inside the chunk. Returns the state after the chunk.
fn scan_chunk(
    p: &Vec<u8>,
    table: &Vec<usize>,
    base: usize,
    consumed: usize,
    seen: Ghost<Seq<u8>>,
    state: usize,
    chunk: &[u8],
    found: &mut Vec<usize>,
) -> (r: usize)
    requires
        p@.len() >= 1,
        is_failure_table(p@, table@),
        consumed == seen@.len(),
        state < p@.len(),
        longest_prefix_end(p@, seen@, seen@.len() as int, p@.len() - 1, state as int),
        base + consumed + chunk@.len() <= usize::MAX,
    ensures
        r < p@.len(),
        longest_prefix_end(p@, seen@ + chunk@, (seen@.len() + chunk@.len()) as int, p@.len() - 1, r as int),
        as_ints(final(found)@) == as_ints(old(found)@) + occurrences_ending_in(
            p@,
            seen@ + chunk@,
            base as int,
            seen@.len() as int,
            (seen@.len() + chunk@.len()) as int,
        ),
{
    let ghost pl = p@;
    let ghost all = seen@ + chunk@;
    let ghost n0 = seen@.len() as int;
    let ghost found0 = as_ints(found@);
    let len = p.len();
    let mut st: usize = state;
    let mut idx: usize = 0;
    proof {
        lemma_prefix_end_extend(pl, seen@, all, n0, pl.len() - 1, state as int);
        assert(found0 + occurrences_ending_in(pl, all, base as int, n0, n0) =~= found0);
    }
    while idx < chunk.len()
        invariant
            p@ == pl,
            len == pl.len(),
            len >= 1,
            is_failure_table(pl, table@),
            all == seen@ + chunk@,
            n0 == seen@.len(),
            consumed == n0,
            base + consumed + chunk@.len() <= usize::MAX,
            idx <= chunk@.len(),
            st < len,
            longest_prefix_end(pl, all, n0 + idx, pl.len() - 1, st as int),
            as_ints(found@) == found0 + occurrences_ending_in(pl, all, base as int, n0, n0 + idx),
        decreases chunk@.len() - idx,
    {
        let ghost j = n0 + idx;
        let c = chunk[idx];
        assert(all[j] == c);
        let r = advance(p.as_slice(), table, Ghost(pl.len() as int), Ghost(all), Ghost(j), st, c);
        let ghost before = found@;
        if r == len {
            let start = base + consumed + idx + 1 - len;
            found.push(start);
            proof {
                let s = j + 1 - pl.len();
                assert forall|x: int| 0 <= x < pl.len() implies #[trigger] all[s + x] == pl[x] by {
                    assert(all[j + 1 - pl.len() + x] == pl[x]);
                }
                assert(occurs_at(pl, all, s));
                assert(as_ints(found@) =~= as_ints(before).push(start as int));
                assert forall|k: int| 0 <= k < pl.len() implies #[trigger] ends_with_prefix(pl, all, j + 1, k)
                    == crate::kmp::is_border(pl, pl.len() - 1, k) by {
                    lemma_prefixes_after_match(pl, all, j + 1, k);
                }
                assert(longest_border(pl, pl.len() - 1, table@[pl.len() - 1] as int));
            }
            st = table[len - 1];
        } else {
            proof {
                let s = j + 1 - pl.len();
                if occurs_at(pl, all, s) {
                    assert forall|x: int| 0 <= x < pl.len() implies #[trigger] all[j + 1 - pl.len() + x] == pl[x] by {
                        assert(all[s + x] == pl[x]);
                    }
                    assert(ends_with_prefix(pl, all, j + 1, pl.len() as int));
                }
            }
            st = r;
        }
        idx = idx + 1;
    }
    st
}

/// The block size used for a file of `file_size` bytes: the configured size, or the
/// file size when the configured size is zero or larger than the file.
pub open spec fn effective_block(configured: int, file_size: int) -> int {
    if configured == 0 || configured > file_size {
        file_size
    } else {
        configured
    }
}

/// The block size used for a file of `file_size` bytes: the configured size, or the
/// file size when the configured size is zero or larger than the file.
pub fn effective_block_size(configured: usize, file_size: usize) -> (r: usize)
    ensures
        r == effective_block(configured as int, file_size as int),
        r <= file_size,
{
    if configured == 0 || configured > file_size {
        file_size
    } else {
        configured
    }
}

/// The bytes that a scan that skips the first `skip` bytes of `file` reads.
pub open spec fn scanned(file: Seq<u8>, skip: int) -> Seq<u8> {
    if skip <= file.len() {
        file.subrange(skip, file.len() as int)
    } else {
        Seq::empty()
    }
}

/// The last offset of a window that starts at `offset`, with blocks of `b` bytes, in a
/// file of `n` bytes.
pub open spec fn window_end(offset: int, b: int, n: int) -> int {
    if offset + b <= n {
        offset + b
    } else {
        n
    }
}

/// `w` is the match set of `pattern` in `file`, scanned from offset `skip`, with blocks
/// of `b` bytes: the windows of the occurrences, each with its bytes of the file.
pub open spec fn is_match_set(w: Seq<Match>, file: Seq<u8>, pattern: Seq<u8>, skip: int, b: int) -> bool {
    &&& windows_of_pieces(
        w,
        all_pieces(occurrences(pattern, scanned(file, skip), skip), pattern.len() as int, b),
    )
    &&& forall|i: int|
        0 <= i < w.len() ==> (#[trigger] w[i]).bytes@ == file.subrange(
            w[i].offset as int,
            window_end(w[i].offset as int, b, file.len() as int),
        )
}

/// Searches files for a byte pattern. It reads a stream in chunks of any size and
/// keeps, between them, the automaton state and the occurrences found so far.
pub struct Searcher {
    pattern: Vec<u8>,
    table: Vec<usize>,
    context_bytes_size: usize,
    skip_bytes: u64,
    state: usize,
    consumed: usize,
    found: Vec<usize>,
    seen: Ghost<Seq<u8>>,
}

impl Searcher {
    /// The pattern searched for.
    pub closed spec fn pattern(&self) -> Seq<u8> {
        self.pattern@
    }

    /// The configured block size.
    pub closed spec fn block(&self) -> int {
        self.context_bytes_size as int
    }

    /// The number of bytes skipped at the start of the file.
    pub closed spec fn skip(&self) -> int {
        self.skip_bytes as int
    }

    /// The bytes read so far, after the skipped ones.
    pub closed spec fn seen(&self) -> Seq<u8> {
        self.seen@
    }

    /// The absolute start offsets of the occurrences found so far.
    pub closed spec fn found(&self) -> Seq<int> {
        offsets(self.found@)
    }

    /// The searcher's state agrees with the bytes read so far.
    pub closed spec fn wf(&self) -> bool {
        &&& self.pattern@.len() >= 1
        &&& is_failure_table(self.pattern@, self.table@)
        &&& self.consumed == self.seen@.len()
        &&& self.skip_bytes + self.consumed <= usize::MAX
        &&& self.state < self.pattern@.len()
        &&& longest_prefix_end(
            self.pattern@,
            self.seen@,
            self.seen@.len() as int,
            self.pattern@.len() - 1,
            self.state as int,
        )
        &&& as_ints(self.found@) == occurrences(self.pattern@, self.seen@, self.skip_bytes as int)
    }

    /// Every start offset, in increasing order, at which `slice` occurs in `src`, as the
    /// range of bytes that the occurrence covers. Overlapping occurrences are all reported.
    pub fn search_slice(src: &[u8], slice: &[u8]) -> (r: Vec<Range<usize>>)
        requires
            slice@.len() >= 1,
        ensures
            range_starts(r@) == occurrences(slice@, src@, 0),
            forall|i: int| 0 <= i < r@.len() ==> #[trigger] r@[i].end == r@[i].start + slice@.len(),
    {
        let p = copy_bytes(slice, 0, slice.len());
        let table = compute_toc(slice);
        let mut starts: Vec<usize> = Vec::new();
        proof {
            assert(longest_prefix_end(p@, Seq::<u8>::empty(), 0, p@.len() - 1, 0)) by {
                assert forall|k2: int| 0 < k2 <= p@.len() - 1 implies !#[trigger] ends_with_prefix(
                    p@,
                    Seq::<u8>::empty(),
                    0,
                    k2,
                ) by {}
            }
        }
        let ghost starts0 = starts@;
        let n = src.len();
        proof {
            assert(p@ =~= slice@);
        }
        scan_chunk(&p, &table, 0, 0, Ghost(Seq::empty()), 0, src, &mut starts);
        proof {
            assert(Seq::<u8>::empty() + src@ =~= src@);
            assert(as_ints(starts0) =~= Seq::<int>::empty());
            assert(Seq::<int>::empty() + occurrences(slice@, src@, 0) =~= occurrences(slice@, src@, 0));
            crate::kmp::lemma_occurrences_members(slice@, src@, 0, 0, src@.len() as int);
            assert forall|k: int| 0 <= k < starts@.len() implies #[trigger] starts@[k] + slice@.len() <= src@.len() by {
                assert(as_ints(starts@)[k] == starts@[k] as int);
                assert(occurrences(slice@, src@, 0)[k] - 0 + slice@.len() <= src@.len());
            }
        }
        let mut r: Vec<Range<usize>> = Vec::new();
        let len = slice.len();
        let mut i: usize = 0;
        while i < starts.len()
            invariant
                len == slice@.len(),
                len >= 1,
                n == src@.len(),
                as_ints(starts@) == occurrences(slice@, src@, 0),
                forall|k: int| 0 <= k < starts@.len() ==> #[trigger] starts@[k] + len <= src@.len(),
                i <= starts@.len(),
                r@.len() == i,
                forall|k: int| 0 <= k < i ==> #[trigger] r@[k].start == starts@[k] && r@[k].end == r@[k].start + len,
            decreases starts@.len() - i,
        {
            proof {
                assert(as_ints(starts@)[i as int] == starts@[i as int] as int);
            }
            let s = starts[i];
            r.push(s..s + len);
            i = i + 1;
        }
        proof {
            assert(range_starts(r@) =~= as_ints(starts@));
        }
        r
    }

    /// A searcher for `pattern` that has read nothing yet.
    pub fn new(pattern: &[u8], context_bytes_size: usize, skip_bytes: u64) -> (r: Searcher)
        requires
            pattern@.len() >= 1,
            skip_bytes <= usize::MAX,
        ensures
            r.wf(),
            r.pattern() == pattern@,
            r.block() == context_bytes_size,
            r.skip() == skip_bytes,
            r.seen() == Seq::<u8>::empty(),
            r.found() == Seq::<int>::empty(),
    {
        let p = copy_bytes(pattern, 0, pattern.len());
        let table = compute_toc(pattern);
        proof {
            assert(p@ =~= pattern@);
            assert forall|k2: int| 0 < k2 <= p@.len() - 1 implies !#[trigger] ends_with_prefix(
                p@,
                Seq::<u8>::empty(),
                0,
                k2,
            ) by {}
            assert(as_ints(Seq::<usize>::empty()) =~= Seq::<int>::empty());
            assert(offsets(Seq::<usize>::empty()) =~= Seq::<int>::empty());
        }
        Searcher {
            pattern: p,
            table,
            context_bytes_size,
            skip_bytes,
            state: 0,
            consumed: 0,
            found: Vec::new(),
            seen: Ghost(Seq::empty()),
        }
    }

    /// The configured block size.
    pub fn context_bytes_size(&self) -> (r: usize)
        ensures
            r == self.block(),
    {
        self.context_bytes_size
    }

    /// The number of bytes skipped at the start of the file.
    pub fn skip_bytes(&self) -> (r: u64)
        ensures
            r == self.skip(),
    {
        self.skip_bytes
    }

    /// Reads the next chunk of the stream. The occurrences that end inside it are
    /// added, also those that began in an earlier chunk.
    pub fn feed(&mut self, chunk: &[u8])
        requires
            old(self).wf(),
            old(self).skip() + old(self).seen().len() + chunk@.len() <= usize::MAX,
        ensures
            final(self).wf(),
            final(self).pattern() == old(self).pattern(),
            final(self).block() == old(self).block(),
            final(self).skip() == old(self).skip(),
            final(self).seen() == old(self).seen() + chunk@,
            final(self).found() == old(self).found() + occurrences_ending_in(
                old(self).pattern(),
                old(self).seen() + chunk@,
                old(self).skip(),
                old(self).seen().len() as int,
                (old(self).seen().len() + chunk@.len()) as int,
            ),
    {
        let ghost seen0 = self.seen@;
        let ghost all = seen0 + chunk@;
        let ghost p = self.pattern@;
        let ghost base = self.skip_bytes as int;
        let base_u = self.skip_bytes as usize;
        let st = scan_chunk(&self.pattern, &self.table, base_u, self.consumed, Ghost(seen0), self.state, chunk, &mut self.found);
        self.state = st;
        self.consumed = self.consumed + chunk.len();
        self.seen = Ghost(all);
        proof {
            lemma_occurrences_extend(p, seen0, all, base, 0, seen0.len() as int);
            lemma_occurrences_split(p, all, base, 0, seen0.len() as int, all.len() as int);
            assert(offsets(self.found@) == as_ints(self.found@));
        }
    }

    /// The absolute start offsets of the occurrences found so far, in increasing order.
    pub fn occurrences(&self) -> (r: &Vec<usize>)
        requires
            self.wf(),
        ensures
            offsets(r@) == self.found(),
            offsets(r@) == occurrences(self.pattern(), self.seen(), self.skip()),
    {
        &self.found
    }

    /// The windows of the occurrences found so far in a file of `file_size` bytes, with
    /// the effective block size; their bytes are left for the caller to read, from
    /// `offset` up to `window_end`.
    pub fn windows(&self, file_size: usize) -> (r: Vec<Match>)
        requires
            self.wf(),
            self.skip() + self.seen().len() <= file_size,
        ensures
            windows_of_pieces(
                r@,
                all_pieces(self.found(), self.pattern().len() as int, effective_block(self.block(), file_size as int)),
            ),
            forall|i: int| 0 <= i < r@.len() ==> (#[trigger] r@[i]).bytes@.len() == 0,
    {
        let b = effective_block_size(self.context_bytes_size, file_size);
        proof {
            crate::kmp::lemma_occurrences_members(self.pattern@, self.seen@, self.skip_bytes as int, 0, self.seen@.len() as int);
            assert forall|k: int| 0 <= k < self.found@.len() implies #[trigger] self.found@[k] + self.pattern@.len() <= file_size by {
                assert(as_ints(self.found@)[k] == self.found@[k] as int);
            }
        }
        if b == 0 || self.found.len() == 0 {
            proof {
                if self.found@.len() == 0 {
                    assert(offsets(self.found@) =~= Seq::<int>::empty());
                } else {
                    assert(self.found@[0] + self.pattern@.len() <= file_size);
                }
                assert forall|blk: int| #[trigger] ranges_in_block(Seq::<crate::window::Piece>::empty(), blk).len() == 0 by {}
            }
            return Vec::new();
        }
        group_occurrences(&self.found, self.pattern.len(), b)
    }

    /// Searches the whole of `file`, from the skipped offset on, and returns its match
    /// set: the windows of the occurrences in increasing order of offset, each with its
    /// bytes and its highlight ranges.
    pub fn search(&self, file: &[u8]) -> (r: Vec<Match>)
        requires
            self.wf(),
        ensures
            is_match_set(
                r@,
                file@,
                self.pattern(),
                self.skip(),
                effective_block(self.block(), file@.len() as int),
            ),
    {
        let ghost p = self.pattern@;
        let ghost skip = self.skip_bytes as int;
        let n = file.len();
        let ghost nb = effective_block(self.block(), n as int);
        let ghost pieces = all_pieces(occurrences(p, scanned(file@, skip), skip), p.len() as int, nb);
        if self.skip_bytes >= n as u64 {
            proof {
                if skip < n {
                } else if skip == n {
                    assert(scanned(file@, skip) =~= Seq::<u8>::empty());
                }
                assert(occurrences(p, scanned(file@, skip), skip) =~= Seq::<int>::empty());
                assert forall|blk: int| #[trigger] ranges_in_block(Seq::<crate::window::Piece>::empty(), blk).len() == 0 by {}
            }
            return Vec::new();
        }
        let skip_u = self.skip_bytes as usize;
        let rest = &file[skip_u..n];
        let mut starts: Vec<usize> = Vec::new();
        let ghost starts0 = starts@;
        proof {
            assert(longest_prefix_end(p, Seq::<u8>::empty(), 0, p.len() - 1, 0)) by {
                assert forall|k2: int| 0 < k2 <= p.len() - 1 implies !#[trigger] ends_with_prefix(
                    p,
                    Seq::<u8>::empty(),
                    0,
                    k2,
                ) by {}
            }
        }
        scan_chunk(&self.pattern, &self.table, skip_u, 0, Ghost(Seq::empty()), 0, rest, &mut starts);
        let b = effective_block_size(self.context_bytes_size, n);
        let len = self.pattern.len();
        proof {
            let t = scanned(file@, skip);
            assert(rest@ == t);
            assert(Seq::<u8>::empty() + t =~= t);
            assert(as_ints(starts0) =~= Seq::<int>::empty());
            assert(Seq::<int>::empty() + occurrences(p, t, skip) =~= occurrences(p, t, skip));
            assert(offsets(starts@) == occurrences(p, t, skip));
            crate::kmp::lemma_occurrences_members(p, t, skip, 0, t.len() as int);
            assert forall|k: int| 0 <= k < starts@.len() implies 0 <= #[trigger] offsets(starts@)[k] && offsets(starts@)[k] + len <= n by {
                assert(occurrences(p, t, skip)[k] - skip + p.len() <= t.len());
            }
            assert forall|k: int| 0 <= k < starts@.len() implies #[trigger] starts@[k] + len <= usize::MAX by {
                assert(offsets(starts@)[k] == starts@[k] as int);
            }
            lemma_all_pieces_within(offsets(starts@), len as int, b as int, n as int);
        }
        let mut windows = group_occurrences(&starts, len, b);
        let ghost w0 = windows@;
        let mut out: Vec<Match> = Vec::new();
        let mut i: usize = 0;
        while i < windows.len()
            invariant
                windows@ == w0,
                windows_of_pieces(w0, pieces),
                pieces_within(pieces, b as int, n as int),
                b == nb,
                b >= 1,
                b <= n,
                n == file@.len(),
                i <= w0.len(),
                out@.len() == i,
                forall|k: int| 0 <= k < i ==> (#[trigger] out@[k]).offset == w0[k].offset
                    && out@[k].indexes_to_paint@ == w0[k].indexes_to_paint@
                    && out@[k].bytes@ == file@.subrange(
                        w0[k].offset as int,
                        window_end(w0[k].offset as int, nb, n as int),
                    ),
            decreases w0.len() - i,
        {
            let offset = windows[i].offset;
            proof {
                let rib = ranges_in_block(pieces, offset as int);
                assert(crate::window::range_pairs(w0[i as int].indexes_to_paint@) == rib);
                assert(rib.len() > 0);
                lemma_ranges_from_pieces(pieces, offset as int);
                assert(has_piece(pieces, offset as int, rib[0]));
                let j = choose|j: int| 0 <= j < pieces.len() && #[trigger] pieces[j] == (offset as int, rib[0].0, rib[0].1);
                assert(pieces[j].0 + pieces[j].2 <= n);
            }
            let end = if offset <= n - b { offset + b } else { n };
            let bytes = copy_bytes(file, offset, end);
            let paint = clone_ranges(&windows[i].indexes_to_paint);
            out.push(Match { offset, indexes_to_paint: paint, bytes });
            i = i + 1;
        }
        proof {
            assert forall|k: int| 0 <= k < out@.len() implies crate::window::range_pairs(#[trigger] out@[k].indexes_to_paint@)
                == crate::window::range_pairs(w0[k].indexes_to_paint@) by {}
            assert(windows_of_pieces(out@, pieces)) by {
                assert forall|blk: int| #[trigger] ranges_in_block(pieces, blk).len() > 0 implies exists|k: int|
                    0 <= k < out@.len() && #[trigger] out@[k].offset == blk by {
                    let k = choose|k: int| 0 <= k < w0.len() && #[trigger] w0[k].offset == blk;
                    assert(out@[k].offset == blk);
                }
            }
        }
        out
    }
}

/// Every highlight range of a match set lies inside its window: from 0 up to the number of
/// bytes of the window, which is the block size or, for the last block, less. This holds
/// when the pattern is no longer than a block.
pub proof fn lemma_highlights_within_window(w: Seq<Match>, file: Seq<u8>, pattern: Seq<u8>, skip: int, b: int)
    requires
        is_match_set(w, file, pattern, skip, b),
        skip >= 0,
        1 <= pattern.len() <= b,
    ensures
        forall|i: int, k: int|
            0 <= i < w.len() && 0 <= k < w[i].indexes_to_paint@.len() ==> {
                let r = #[trigger] w[i].indexes_to_paint@[k];
                &&& r.start < r.end
                &&& r.end <= window_end(w[i].offset as int, b, file.len() as int) - w[i].offset
            },
{
    let t = scanned(file, skip);
    let starts = occurrences(pattern, t, skip);
    let pieces = all_pieces(starts, pattern.len() as int, b);
    let n = file.len() as int;
    if skip >= 0 {
        crate::kmp::lemma_occurrences_members(pattern, t, skip, 0, t.len() as int);
        assert forall|k: int| 0 <= k < starts.len() implies 0 <= #[trigger] starts[k] && starts[k] + pattern.len() <= n by {
            assert(starts.contains(starts[k]));
            assert(starts[k] - skip + pattern.len() <= t.len());
        }
        lemma_all_pieces_within(starts, pattern.len() as int, b, n);
        assert forall|i: int, k: int| 0 <= i < w.len() && 0 <= k < w[i].indexes_to_paint@.len() implies {
            let r = #[trigger] w[i].indexes_to_paint@[k];
            &&& r.start < r.end
            &&& r.end <= window_end(w[i].offset as int, b, n) - w[i].offset
        } by {
            let blk = w[i].offset as int;
            let rib = ranges_in_block(pieces, blk);
            assert(crate::window::range_pairs(w[i].indexes_to_paint@) == rib);
            assert(rib[k] == crate::window::range_pair(w[i].indexes_to_paint@[k]));
            lemma_ranges_from_pieces(pieces, blk);
            assert(has_piece(pieces, blk, rib[k]));
            let j = choose|j: int| 0 <= j < pieces.len() && #[trigger] pieces[j] == (blk, rib[k].0, rib[k].1);
            assert(pieces[j].2 <= b);
        }
    }
}

/// Two match sets of the same file, pattern, skipped offset and block size are the same,
/// window by window and byte by byte: a search gives the same result every time.
pub proof fn lemma_match_set_unique(w1: Seq<Match>, w2: Seq<Match>, file: Seq<u8>, pattern: Seq<u8>, skip: int, b: int)
    requires
        is_match_set(w1, file, pattern, skip, b),
        is_match_set(w2, file, pattern, skip, b),
    ensures
        w1.len() == w2.len(),
        forall|i: int|
            0 <= i < w1.len() ==> #[trigger] w1[i].offset == w2[i].offset && w1[i].indexes_to_paint@
                == w2[i].indexes_to_paint@ && w1[i].bytes@ == w2[i].bytes@,
{
    let pieces = all_pieces(occurrences(pattern, scanned(file, skip), skip), pattern.len() as int, b);
    lemma_sorted_windows_unique(w1, w2, pieces);
    assert forall|i: int| 0 <= i < w1.len() implies #[trigger] w1[i].indexes_to_paint@ == w2[i].indexes_to_paint@ by {
        let a = w1[i].indexes_to_paint@;
        let c = w2[i].indexes_to_paint@;
        assert(crate::window::range_pairs(a) == crate::window::range_pairs(c));
        assert forall|k: int| 0 <= k < a.len() implies a[k] == c[k] by {
            assert(crate::window::range_pairs(a)[k] == crate::window::range_pairs(c)[k]);
        }
        assert(a =~= c);
    }
}

/// Two window lists of the same pieces have the same offsets in the same places.
proof fn lemma_sorted_windows_unique(w1: Seq<Match>, w2: Seq<Match>, pieces: Seq<crate::window::Piece>)
    requires
        windows_of_pieces(w1, pieces),
        windows_of_pieces(w2, pieces),
    ensures
        w1.len() == w2.len(),
        forall|i: int| 0 <= i < w1.len() ==> #[trigger] w1[i].offset == w2[i].offset,
    decreases w1.len() + w2.len(),
{
    // every offset of one list is an offset of the other
    assert forall|i: int| 0 <= i < w1.len() implies has_offset(w2, #[trigger] w1[i].offset as int) by {
        assert(crate::window::range_pairs(w1[i].indexes_to_paint@).len() == w1[i].indexes_to_paint@.len());
        assert(ranges_in_block(pieces, w1[i].offset as int).len() > 0);
    }
    assert forall|i: int| 0 <= i < w2.len() implies has_offset(w1, #[trigger] w2[i].offset as int) by {
        assert(crate::window::range_pairs(w2[i].indexes_to_paint@).len() == w2[i].indexes_to_paint@.len());
        assert(ranges_in_block(pieces, w2[i].offset as int).len() > 0);
    }
    lemma_same_sorted(w1, w2);
}

/// Some window of `w` starts at `off`.
spec fn has_offset(w: Seq<Match>, off: int) -> bool {
    exists|k: int| 0 <= k < w.len() && #[trigger] w[k].offset == off
}

/// Two strictly increasing lists of offsets with the same members are equal.
proof fn lemma_same_sorted(w1: Seq<Match>, w2: Seq<Match>)
    requires
        forall|i: int, k: int| 0 <= i < k < w1.len() ==> #[trigger] w1[i].offset < #[trigger] w1[k].offset,
        forall|i: int, k: int| 0 <= i < k < w2.len() ==> #[trigger] w2[i].offset < #[trigger] w2[k].offset,
        forall|i: int| 0 <= i < w1.len() ==> has_offset(w2, #[trigger] w1[i].offset as int),
        forall|i: int| 0 <= i < w2.len() ==> has_offset(w1, #[trigger] w2[i].offset as int),
    ensures
        w1.len() == w2.len(),
        forall|i: int| 0 <= i < w1.len() ==> #[trigger] w1[i].offset == w2[i].offset,
{
    // index of w1[i] in w2 is i, by induction on i
    assert forall|i: int| 0 <= i < w1.len() && i < w2.len() implies #[trigger] w1[i].offset == w2[i].offset by {
        lemma_same_sorted_at(w1, w2, i);
    }
    if w1.len() < w2.len() {
        let i = w1.len() as int;
        assert(has_offset(w1, w2[i].offset as int));
        let k = choose|k: int| 0 <= k < w1.len() && #[trigger] w1[k].offset == w2[i].offset;
        assert(w1[k].offset == w2[k].offset);
        assert(w2[k].offset < w2[i].offset);
    }
    if w2.len() < w1.len() {
        let i = w2.len() as int;
        assert(has_offset(w2, w1[i].offset as int));
        let k = choose|k: int| 0 <= k < w2.len() && #[trigger] w2[k].offset == w1[i].offset;
        assert(w1[k].offset == w2[k].offset);
        assert(w1[k].offset < w1[i].offset);
    }
}

proof fn lemma_same_sorted_at(w1: Seq<Match>, w2: Seq<Match>, i: int)
    requires
        forall|i: int, k: int| 0 <= i < k < w1.len() ==> #[trigger] w1[i].offset < #[trigger] w1[k].offset,
        forall|i: int, k: int| 0 <= i < k < w2.len() ==> #[trigger] w2[i].offset < #[trigger] w2[k].offset,
        forall|i: int| 0 <= i < w1.len() ==> has_offset(w2, #[trigger] w1[i].offset as int),
        forall|i: int| 0 <= i < w2.len() ==> has_offset(w1, #[trigger] w2[i].offset as int),
        0 <= i < w1.len(),
        i < w2.len(),
    ensures
        w1[i].offset == w2[i].offset,
    decreases i,
{
    if i > 0 {
        lemma_same_sorted_at(w1, w2, i - 1);
    }
    // w1[i] sits at some index k of w2, and w2[i] at some index m of w1
    assert(has_offset(w2, w1[i].offset as int));
    assert(has_offset(w1, w2[i].offset as int));
    let k = choose|k: int| 0 <= k < w2.len() && #[trigger] w2[k].offset == w1[i].offset;
    let m = choose|m: int| 0 <= m < w1.len() && #[trigger] w1[m].offset == w2[i].offset;
    if k < i {
        lemma_same_sorted_at(w1, w2, k);
        assert(w1[k].offset < w1[i].offset);
    } else if m < i {
        lemma_same_sorted_at(w1, w2, m);
        assert(w2[m].offset < w2[i].offset);
    } else if k > i {
        // w2[i] < w2[k] == w1[i] <= w1[m] == w2[i]
        assert(w2[i].offset < w2[k].offset);
        if m > i {
            assert(w1[i].offset < w1[m].offset);
        }
    } else if m > i {
        assert(w1[i].offset < w1[m].offset);
    }
}

} // verus!
