//! Context windows: block-aligned slices of the file around the occurrences, each
//! with the ranges that matched, relative to the window's start.
use std::ops::Range;
use vstd::prelude::*;

verus! {

/// One block-aligned window of the file and the parts of it that matched.
#[derive(Debug, Clone)]
pub struct Match {
    /// Absolute offset of the window's first byte: a multiple of the block size.
    pub offset: usize,
    /// The matched ranges, relative to `offset`, in the order they were found.
    pub indexes_to_paint: Vec<Range<usize>>,
    /// The bytes of the window.
    pub bytes: Vec<u8>,
}

/// A highlight range as a pair of integers.
pub open spec fn range_pair(r: Range<usize>) -> (int, int) {
    (r.start as int, r.end as int)
}

/// The highlight ranges of a window as pairs of integers.
pub open spec fn range_pairs(v: Seq<Range<usize>>) -> Seq<(int, int)> {
    v.map_values(|r: Range<usize>| range_pair(r))
}

/// The part of an occurrence that falls in one block: (block start, start, end),
/// the last two relative to the block start.
pub type Piece = (int, int, int);

/// The pieces of the occurrence `[s, s+len)` with blocks of size `b`: one when it fits in
/// its block, else two, the second at the start of the next block.
pub open spec fn occurrence_pieces(s: int, len: int, b: int) -> Seq<Piece> {
    let block = s - s % b;
    if s + len <= block + b {
        seq![(block, s - block, s + len - block)]
    } else {
        seq![(block, s - block, b), (block + b, 0, s + len - block - b)]
    }
}

/// The pieces of all occurrences, in order.
pub open spec fn all_pieces(starts: Seq<int>, len: int, b: int) -> Seq<Piece>
    decreases starts.len(),
{
    if starts.len() == 0 {
        Seq::empty()
    } else {
        all_pieces(starts.drop_last(), len, b) + occurrence_pieces(starts.last(), len, b)
    }
}

/// The ranges that the pieces attribute to the block that starts at `block`, in order.
pub open spec fn ranges_in_block(pieces: Seq<Piece>, block: int) -> Seq<(int, int)>
    decreases pieces.len(),
{
    if pieces.len() == 0 {
        Seq::empty()
    } else {
        let prev = ranges_in_block(pieces.drop_last(), block);
        let q = pieces.last();
        if q.0 == block {
            prev.push((q.1, q.2))
        } else {
            prev
        }
    }
}

/// `w` holds one window per block that some piece falls in, in increasing order of
/// offset, each with the ranges of that block's pieces in order.
pub open spec fn windows_of_pieces(w: Seq<Match>, pieces: Seq<Piece>) -> bool {
    &&& forall|i: int, k: int| 0 <= i < k < w.len() ==> #[trigger] w[i].offset < #[trigger] w[k].offset
    &&& forall|i: int|
        0 <= i < w.len() ==> range_pairs(#[trigger] w[i].indexes_to_paint@) == ranges_in_block(
            pieces,
            w[i].offset as int,
        )
    &&& forall|i: int| 0 <= i < w.len() ==> (#[trigger] w[i].indexes_to_paint@).len() > 0
    &&& forall|block: int|
        #![trigger ranges_in_block(pieces, block)]
        ranges_in_block(pieces, block).len() > 0 ==> exists|i: int|
            0 <= i < w.len() && #[trigger] w[i].offset == block
}

/// Adds the range `[lo, hi)` to the window at `block`, creating the window, in its
/// place by offset, when there is none.
fn add_piece(windows: &mut Vec<Match>, pieces: Ghost<Seq<Piece>>, block: usize, lo: usize, hi: usize)
    requires
        windows_of_pieces(old(windows)@, pieces@),
        forall|i: int| 0 <= i < old(windows)@.len() ==> (#[trigger] old(windows)@[i]).bytes@.len() == 0,
    ensures
        windows_of_pieces(final(windows)@, pieces@.push((block as int, lo as int, hi as int))),
        forall|i: int| 0 <= i < final(windows)@.len() ==> (#[trigger] final(windows)@[i]).bytes@.len() == 0,
{
    let ghost ps = pieces@;
    let ghost np = ps.push((block as int, lo as int, hi as int));
    let ghost w0 = windows@;
    proof {
        assert(np.drop_last() =~= ps);
        assert forall|b: int| b != block implies #[trigger] ranges_in_block(np, b) == ranges_in_block(ps, b) by {}
        assert(ranges_in_block(np, block as int) == ranges_in_block(ps, block as int).push((lo as int, hi as int)));
    }
    let mut k: usize = 0;
    while k < windows.len() && windows[k].offset < block
        invariant
            windows@ == w0,
            k <= w0.len(),
            forall|i: int| 0 <= i < k ==> #[trigger] w0[i].offset < block,
        decreases w0.len() - k,
    {
        k = k + 1;
    }
    if k < windows.len() && windows[k].offset == block {
        let mut m = windows.remove(k);
        m.indexes_to_paint.push(lo..hi);
        proof {
            assert(range_pairs(m.indexes_to_paint@) =~= range_pairs(w0[k as int].indexes_to_paint@).push(
                (lo as int, hi as int),
            ));
        }
        windows.insert(k, m);
        proof {
            let w = windows@;
            assert(w =~= w0.update(k as int, m));
            assert forall|b: int| #[trigger] ranges_in_block(np, b).len() > 0 implies exists|i: int|
                0 <= i < w.len() && #[trigger] w[i].offset == b by {
                if b != block {
                    let i = choose|i: int| 0 <= i < w0.len() && #[trigger] w0[i].offset == b;
                    assert(w[i].offset == b);
                } else {
                    assert(w[k as int].offset == b);
                }
            }
        }
    } else {
        let mut paint: Vec<Range<usize>> = Vec::new();
        paint.push(lo..hi);
        let m = Match { offset: block, indexes_to_paint: paint, bytes: Vec::new() };
        proof {
            assert(ranges_in_block(ps, block as int).len() == 0) by {
                if ranges_in_block(ps, block as int).len() > 0 {
                    let i = choose|i: int| 0 <= i < w0.len() && #[trigger] w0[i].offset == block;
                    if i < k {
                    } else if i > k {
                        assert(w0[k as int].offset < w0[i].offset);
                    }
                }
            }
            assert(range_pairs(m.indexes_to_paint@) =~= seq![(lo as int, hi as int)]);
            assert(ranges_in_block(np, block as int) =~= seq![(lo as int, hi as int)]);
        }
        windows.insert(k, m);
        proof {
            let w = windows@;
            assert(w =~= w0.insert(k as int, m));
            assert forall|i: int, j: int| 0 <= i < j < w.len() implies #[trigger] w[i].offset < #[trigger] w[j].offset by {
                if j < k {
                } else if j == k {
                } else if i < k {
                    assert(w[j] == w0[j - 1]);
                } else if i == k {
                    assert(w[j] == w0[j - 1]);
                    assert(w0[k as int].offset >= block);
                    if j - 1 > k {
                        assert(w0[k as int].offset < w0[j - 1].offset);
                    }
                } else {
                    assert(w[i] == w0[i - 1]);
                    assert(w[j] == w0[j - 1]);
                }
            }
            assert forall|i: int| 0 <= i < w.len() implies range_pairs(#[trigger] w[i].indexes_to_paint@)
                == ranges_in_block(np, w[i].offset as int) by {
                if i < k {
                } else if i > k {
                    assert(w[i] == w0[i - 1]);
                }
            }
            assert forall|i: int| 0 <= i < w.len() implies (#[trigger] w[i].indexes_to_paint@).len() > 0 by {
                if i > k {
                    assert(w[i] == w0[i - 1]);
                }
            }
            assert forall|i: int| 0 <= i < w.len() implies (#[trigger] w[i]).bytes@.len() == 0 by {
                if i > k {
                    assert(w[i] == w0[i - 1]);
                }
            }
            assert forall|b: int| #[trigger] ranges_in_block(np, b).len() > 0 implies exists|i: int|
                0 <= i < w.len() && #[trigger] w[i].offset == b by {
                if b != block {
                    let i = choose|i: int| 0 <= i < w0.len() && #[trigger] w0[i].offset == b;
                    if i < k {
                        assert(w[i].offset == b);
                    } else {
                        assert(w[i + 1] == w0[i]);
                    }
                } else {
                    assert(w[k as int].offset == b);
                }
            }
        }
    }
}

/// The start of the block that holds `s` is at most `s`, less than a block before it,
/// and a multiple of the block size.
pub proof fn lemma_block_of(s: int, b: int)
    requires
        s >= 0,
        b >= 1,
    ensures
        0 <= s % b <= s,
        s % b < b,
        (s - s % b) % b == 0,
{
    vstd::arithmetic::div_mod::lemma_mod_bound(s, b);
    vstd::arithmetic::div_mod::lemma_fundamental_div_mod(s, b);
    assert(s - s % b == (s / b) * b) by (nonlinear_arith)
        requires s == b * (s / b) + s % b;
    vstd::arithmetic::div_mod::lemma_mod_multiples_basic(s / b, b);
    assert(s % b <= s) by {
        if s / b < 0 {
            vstd::arithmetic::div_mod::lemma_div_pos_is_pos(s, b);
        }
        assert(b * (s / b) >= 0) by (nonlinear_arith)
            requires s / b >= 0, b >= 1;
    }
}

/// The integer values of a list of offsets.
pub open spec fn offsets(v: Seq<usize>) -> Seq<int> {
    v.map_values(|x: usize| x as int)
}

/// Groups the occurrences `[s, s+pattern_len)`, `s` in `starts`, into windows of
/// `block_size` bytes aligned on multiples of it. An occurrence that crosses the end
/// of its block is split between that block and the next. The windows' bytes are
/// left empty.
pub fn group_occurrences(starts: &Vec<usize>, pattern_len: usize, block_size: usize) -> (windows: Vec<Match>)
    requires
        block_size >= 1,
        forall|i: int| 0 <= i < starts@.len() ==> #[trigger] starts@[i] + pattern_len <= usize::MAX,
    ensures
        windows_of_pieces(windows@, all_pieces(offsets(starts@), pattern_len as int, block_size as int)),
        forall|i: int| 0 <= i < windows@.len() ==> (#[trigger] windows@[i]).bytes@.len() == 0,
{
    let ghost len = pattern_len as int;
    let ghost b = block_size as int;
    let mut windows: Vec<Match> = Vec::new();
    let mut i: usize = 0;
    proof {
        assert(offsets(starts@).subrange(0, 0) =~= Seq::<int>::empty());
        assert forall|blk: int| #[trigger] ranges_in_block(Seq::<Piece>::empty(), blk).len() == 0 by {}
    }
    while i < starts.len()
        invariant
            block_size >= 1,
            len == pattern_len,
            b == block_size,
            i <= starts@.len(),
            forall|k: int| 0 <= k < starts@.len() ==> #[trigger] starts@[k] + pattern_len <= usize::MAX,
            windows_of_pieces(windows@, all_pieces(offsets(starts@).subrange(0, i as int), len, b)),
            forall|k: int| 0 <= k < windows@.len() ==> (#[trigger] windows@[k]).bytes@.len() == 0,
        decreases starts@.len() - i,
    {
        let ghost prefix = offsets(starts@).subrange(0, i as int);
        let ghost next = offsets(starts@).subrange(0, i + 1);
        let ghost ps = all_pieces(prefix, len, b);
        let s = starts[i];
        proof {
            lemma_block_of(s as int, b);
        }
        let block = s - s % block_size;
        proof {
            assert(next.drop_last() =~= prefix);
            assert(next.last() == s as int);
            assert(all_pieces(next, len, b) == ps + occurrence_pieces(s as int, len, b));
        }
        if s + pattern_len - block <= block_size {
            add_piece(&mut windows, Ghost(ps), block, s - block, s + pattern_len - block);
            proof {
                assert(ps + occurrence_pieces(s as int, len, b) =~= ps.push(
                    (block as int, s - block, s + pattern_len - block),
                ));
            }
        } else {
            add_piece(&mut windows, Ghost(ps), block, s - block, block_size);
            let ghost ps1 = ps.push((block as int, s - block, block_size as int));
            add_piece(&mut windows, Ghost(ps1), block + block_size, 0, s + pattern_len - block - block_size);
            proof {
                assert(ps + occurrence_pieces(s as int, len, b) =~= ps1.push(
                    ((block + block_size) as int, 0, s + pattern_len - block - block_size),
                ));
            }
        }
        i = i + 1;
    }
    proof {
        assert(offsets(starts@).subrange(0, starts@.len() as int) =~= offsets(starts@));
    }
    windows
}

/// Every piece is a non-empty range inside its block, which is a multiple of `b`, and
/// inside the first `n` bytes of the file.
pub open spec fn pieces_within(ps: Seq<Piece>, b: int, n: int) -> bool {
    forall|j: int|
        0 <= j < ps.len() ==> {
            let q = #[trigger] ps[j];
            &&& 0 <= q.0
            &&& q.0 % b == 0
            &&& 0 <= q.1 < q.2
            &&& q.0 + q.2 <= n
        }
}

/// The pieces of occurrences that lie in the first `n` bytes lie there too; when the
/// pattern is no longer than a block, no piece ends past its block.
pub proof fn lemma_all_pieces_within(starts: Seq<int>, len: int, b: int, n: int)
    requires
        len >= 1,
        b >= 1,
        forall|i: int| 0 <= i < starts.len() ==> 0 <= #[trigger] starts[i] && starts[i] + len <= n,
    ensures
        pieces_within(all_pieces(starts, len, b), b, n),
        len <= b ==> forall|j: int|
            0 <= j < all_pieces(starts, len, b).len() ==> (#[trigger] all_pieces(starts, len, b)[j]).2 <= b,
    decreases starts.len(),
{
    if starts.len() > 0 {
        let prev = starts.drop_last();
        assert forall|i: int| 0 <= i < prev.len() implies 0 <= #[trigger] prev[i] && prev[i] + len <= n by {
            assert(prev[i] == starts[i]);
        }
        lemma_all_pieces_within(prev, len, b, n);
        let s = starts.last();
        assert(0 <= s && s + len <= n);
        lemma_block_of(s, b);
        let block = s - s % b;
        if s + len > block + b {
            assert((block + b) % b == 0) by {
                vstd::arithmetic::div_mod::lemma_mod_add_multiples_vanish(block, b);
            }
        }
    }
}

/// Some piece of `ps` lies in `block` and covers the range `r`.
pub open spec fn has_piece(ps: Seq<Piece>, block: int, r: (int, int)) -> bool {
    exists|j: int| 0 <= j < ps.len() && #[trigger] ps[j] == (block, r.0, r.1)
}

/// Each range attributed to a block comes from a piece in that block.
pub proof fn lemma_ranges_from_pieces(ps: Seq<Piece>, block: int)
    ensures
        forall|k: int|
            0 <= k < ranges_in_block(ps, block).len() ==> has_piece(ps, block, #[trigger] ranges_in_block(ps, block)[k]),
    decreases ps.len(),
{
    if ps.len() > 0 {
        let prev = ps.drop_last();
        lemma_ranges_from_pieces(prev, block);
        let r = ranges_in_block(ps, block);
        let rp = ranges_in_block(prev, block);
        assert forall|k: int| 0 <= k < r.len() implies has_piece(ps, block, #[trigger] r[k]) by {
            if k < rp.len() {
                assert(r[k] == rp[k]);
                assert(has_piece(prev, block, rp[k]));
                let j = choose|j: int| 0 <= j < prev.len() && #[trigger] prev[j] == (block, rp[k].0, rp[k].1);
                assert(ps[j] == prev[j]);
            } else {
                assert(ps[ps.len() - 1] == (block, r[k].0, r[k].1));
            }
        }
    }
}

/// An occurrence that crosses the end of its block is split into a piece that ends its
/// block and a piece that starts the next; their lengths add up to the pattern's.
pub proof fn lemma_split_lengths(s: int, len: int, b: int)
    requires
        s >= 0,
        len >= 1,
        b >= 1,
    ensures
        occurrence_pieces(s, len, b).len() == 2 ==> {
            let q0 = occurrence_pieces(s, len, b)[0];
            let q1 = occurrence_pieces(s, len, b)[1];
            &&& (q0.2 - q0.1) + (q1.2 - q1.1) == len
            &&& q0.2 == b
            &&& q1.0 == q0.0 + b
            &&& q1.1 == 0
        },
{
}

} // verus!
