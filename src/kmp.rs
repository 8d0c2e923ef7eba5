//! The Knuth-Morris-Pratt automaton: its mathematical model, the failure
//! table, and the transition on one byte.
use vstd::prelude::*;

verus! {

/// The last `k` bytes of `t[0..j]` are the first `k` bytes of `p`.
pub open spec fn ends_with_prefix(p: Seq<u8>, t: Seq<u8>, j: int, k: int) -> bool {
    &&& 0 <= k <= j <= t.len()
    &&& k <= p.len()
    &&& forall|x: int| 0 <= x < k ==> #[trigger] t[j - k + x] == p[x]
}

/// `p[0..k]` is both a prefix and a proper suffix of `p[0..=i]`.
pub open spec fn is_border(p: Seq<u8>, i: int, k: int) -> bool {
    &&& 0 <= k <= i < p.len()
    &&& forall|x: int| 0 <= x < k ==> #[trigger] p[i + 1 - k + x] == p[x]
}

/// `v` is the length of the longest border of `p[0..=i]`.
pub open spec fn longest_border(p: Seq<u8>, i: int, v: int) -> bool {
    &&& is_border(p, i, v)
    &&& forall|k: int| v < k <= i ==> !is_border(p, i, k)
}

/// The first `n` entries of `table` are the failure function of `p`.
pub open spec fn failure_prefix_ok(p: Seq<u8>, table: Seq<usize>, n: int) -> bool {
    &&& 0 <= n <= table.len()
    &&& n <= p.len()
    &&& forall|i: int| 0 <= i < n ==> longest_border(p, i, #[trigger] table[i] as int)
}

/// `table` is the whole failure function of `p`.
pub open spec fn is_failure_table(p: Seq<u8>, table: Seq<usize>) -> bool {
    &&& table.len() == p.len()
    &&& failure_prefix_ok(p, table, p.len() as int)
}

/// `k` is the longest prefix of `p`, of length at most `cap`, that ends at `t[0..j]`:
/// the automaton state after reading `t[0..j]`.
pub open spec fn longest_prefix_end(p: Seq<u8>, t: Seq<u8>, j: int, cap: int, k: int) -> bool {
    &&& ends_with_prefix(p, t, j, k)
    &&& k <= cap
    &&& forall|k2: int| k < k2 <= cap ==> !ends_with_prefix(p, t, j, k2)
}

/// `p` occurs in `t` starting at offset `s`.
pub open spec fn occurs_at(p: Seq<u8>, t: Seq<u8>, s: int) -> bool {
    &&& 0 <= s
    &&& s + p.len() <= t.len()
    &&& forall|x: int| 0 <= x < p.len() ==> #[trigger] t[s + x] == p[x]
}

/// Two prefixes of `p` that end at the same place: the shorter is a border of the longer.
pub proof fn lemma_nested_prefixes(p: Seq<u8>, t: Seq<u8>, j: int, k: int, q: int)
    requires
        ends_with_prefix(p, t, j, k),
        ends_with_prefix(p, t, j, q),
        k < q,
    ensures
        is_border(p, q - 1, k),
{
    assert forall|x: int| 0 <= x < k implies #[trigger] p[q - 1 + 1 - k + x] == p[x] by {
        assert(t[j - q + (q - k + x)] == p[q - k + x]);
        assert(t[j - k + x] == p[x]);
    }
}

/// A border of a prefix that ends at `j` is itself a prefix that ends at `j`.
pub proof fn lemma_border_of_prefix(p: Seq<u8>, t: Seq<u8>, j: int, q: int, k: int)
    requires
        ends_with_prefix(p, t, j, q),
        q > 0,
        is_border(p, q - 1, k),
    ensures
        ends_with_prefix(p, t, j, k),
{
    assert forall|x: int| 0 <= x < k implies #[trigger] t[j - k + x] == p[x] by {
        assert(t[j - q + (q - k + x)] == p[q - k + x]);
        assert(p[q - 1 + 1 - k + x] == p[x]);
    }
}

/// Once the whole pattern ends at `j`, the shorter prefixes that end there are exactly
/// the borders of the pattern.
pub proof fn lemma_prefixes_after_match(p: Seq<u8>, t: Seq<u8>, j: int, k: int)
    requires
        ends_with_prefix(p, t, j, p.len() as int),
        0 <= k < p.len(),
    ensures
        ends_with_prefix(p, t, j, k) <==> is_border(p, p.len() - 1, k),
{
    let l = p.len() as int;
    if ends_with_prefix(p, t, j, k) {
        lemma_nested_prefixes(p, t, j, k, l);
    }
    if is_border(p, l - 1, k) {
        lemma_border_of_prefix(p, t, j, l, k);
    }
}

/// Reading the pattern against itself shifted by one gives its borders.
pub proof fn lemma_self_prefix_is_border(p: Seq<u8>, m: int, k: int)
    requires
        0 <= m < p.len(),
    ensures
        ends_with_prefix(p, p.subrange(1, p.len() as int), m, k) <==> is_border(p, m, k),
{
    let t = p.subrange(1, p.len() as int);
    if ends_with_prefix(p, t, m, k) {
        assert forall|x: int| 0 <= x < k implies #[trigger] p[m + 1 - k + x] == p[x] by {
            assert(t[m - k + x] == p[x]);
        }
    }
    if is_border(p, m, k) {
        assert forall|x: int| 0 <= x < k implies #[trigger] t[m - k + x] == p[x] by {
            assert(p[m + 1 - k + x] == p[x]);
        }
    }
}

/// One transition of the automaton: from the longest prefix of length below the
/// pattern's that ends at `t[0..j]`, and the byte `t[j]`, the longest prefix of
/// any length that ends at `t[0..j+1]`.
pub(crate) fn advance(p: &[u8], table: &Vec<usize>, n: Ghost<int>, t: Ghost<Seq<u8>>, j: Ghost<int>, state: usize, c: u8) -> (r: usize)
    requires
        p@.len() >= 1,
        failure_prefix_ok(p@, table@, n@),
        state <= n@,
        0 <= j@ < t@.len(),
        t@[j@] == c,
        longest_prefix_end(p@, t@, j@, p@.len() - 1, state as int),
    ensures
        longest_prefix_end(p@, t@, j@ + 1, p@.len() as int, r as int),
{
    let ghost pl = p@;
    let ghost tl = t@;
    let ghost jj = j@;
    let mut q: usize = state;
    while q > 0 && p[q] != c
        invariant
            p@ == pl,
            pl.len() >= 1,
            failure_prefix_ok(pl, table@, n@),
            q <= state <= n@,
            state < pl.len(),
            0 <= jj < tl.len(),
            tl[jj] == c,
            ends_with_prefix(pl, tl, jj, q as int),
            forall|k: int| q < k < pl.len() && ends_with_prefix(pl, tl, jj, k) ==> pl[k] != c,
        decreases q,
    {
        let next = table[q - 1];
        proof {
            let qi = q as int;
            assert(longest_border(pl, qi - 1, table@[qi - 1] as int));
            lemma_border_of_prefix(pl, tl, jj, qi, next as int);
            assert forall|k: int| next < k < pl.len() && ends_with_prefix(pl, tl, jj, k) implies pl[k] != c by {
                if k < qi {
                    lemma_nested_prefixes(pl, tl, jj, k, qi);
                }
            }
        }
        q = next;
    }
    let r: usize = if p[q] == c { q + 1 } else { 0 };
    proof {
        let ri = r as int;
        if r > 0 {
            assert forall|x: int| 0 <= x < ri implies #[trigger] tl[jj + 1 - ri + x] == pl[x] by {
                if x < ri - 1 {
                    assert(tl[jj - q + x] == pl[x]);
                }
            }
        }
        assert forall|k2: int| ri < k2 <= pl.len() implies !#[trigger] ends_with_prefix(pl, tl, jj + 1, k2) by {
            if ends_with_prefix(pl, tl, jj + 1, k2) {
                assert forall|x: int| 0 <= x < k2 - 1 implies #[trigger] tl[jj - (k2 - 1) + x] == pl[x] by {
                    assert(tl[jj + 1 - k2 + x] == pl[x]);
                }
                assert(tl[jj + 1 - k2 + (k2 - 1)] == pl[k2 - 1]);
                assert(ends_with_prefix(pl, tl, jj, k2 - 1));
            }
        }
    }
    r
}

/// Builds the failure table of `pattern`: entry `i` is the length of the longest
/// proper prefix of `pattern[0..=i]` that is also a suffix of it.
pub fn compute_toc(pattern: &[u8]) -> (table: Vec<usize>)
    requires
        pattern@.len() >= 1,
    ensures
        is_failure_table(pattern@, table@),
{
    let ghost p = pattern@;
    let ghost t = p.subrange(1, p.len() as int);
    let len = pattern.len();
    let mut table: Vec<usize> = vec![0; len];
    let mut pos: usize = 0;
    let mut i: usize = 1;
    proof {
        assert(longest_border(p, 0, 0));
    }
    while i < len
        invariant
            pattern@ == p,
            t == p.subrange(1, p.len() as int),
            len == p.len(),
            len >= 1,
            1 <= i <= len,
            table@.len() == len,
            failure_prefix_ok(p, table@, i as int),
            pos == table@[i - 1],
        decreases len - i,
    {
        proof {
            let m = i - 1;
            assert(longest_border(p, m, pos as int));
            assert forall|k: int| ends_with_prefix(p, t, m, k) <==> is_border(p, m, k) by {
                lemma_self_prefix_is_border(p, m, k);
            }
            assert(ends_with_prefix(p, t, m, pos as int));
            assert forall|k2: int| pos < k2 <= p.len() - 1 implies !#[trigger] ends_with_prefix(p, t, m, k2) by {
                if ends_with_prefix(p, t, m, k2) {
                    assert(is_border(p, m, k2));
                }
            }
        }
        pos = advance(pattern, &table, Ghost(i as int), Ghost(t), Ghost(i - 1), pos, pattern[i]);
        proof {
            let m = i as int;
            assert forall|k: int| ends_with_prefix(p, t, m, k) <==> is_border(p, m, k) by {
                lemma_self_prefix_is_border(p, m, k);
            }
            assert(longest_border(p, m, pos as int));
        }
        table.set(i, pos);
        i = i + 1;
    }
    table
}

/// Start offsets, shifted by `base`, of the occurrences of `p` in `t` whose last byte
/// lies in `t[a..b]`, in increasing order.
pub open spec fn occurrences_ending_in(p: Seq<u8>, t: Seq<u8>, base: int, a: int, b: int) -> Seq<int>
    decreases b - a,
{
    if b <= a {
        Seq::empty()
    } else {
        let prev = occurrences_ending_in(p, t, base, a, b - 1);
        if occurs_at(p, t, b - p.len()) {
            prev.push(base + b - p.len())
        } else {
            prev
        }
    }
}

/// Start offsets, shifted by `base`, of every occurrence of `p` in `t`, in increasing order.
pub open spec fn occurrences(p: Seq<u8>, t: Seq<u8>, base: int) -> Seq<int> {
    occurrences_ending_in(p, t, base, 0, t.len() as int)
}

/// Every offset at which `p` occurs in `t`, found by trying each one.
pub open spec fn naive_starts(p: Seq<u8>, t: Seq<u8>) -> Set<int> {
    Set::new(|s: int| occurs_at(p, t, s))
}

/// Occurrences ending in consecutive ranges.
pub proof fn lemma_occurrences_split(p: Seq<u8>, t: Seq<u8>, base: int, a: int, b: int, c: int)
    requires
        a <= b <= c,
    ensures
        occurrences_ending_in(p, t, base, a, c) == occurrences_ending_in(p, t, base, a, b)
            + occurrences_ending_in(p, t, base, b, c),
    decreases c - b,
{
    if c == b {
        assert(occurrences_ending_in(p, t, base, a, b) + Seq::empty() =~= occurrences_ending_in(p, t, base, a, b));
    } else {
        lemma_occurrences_split(p, t, base, a, b, c - 1);
        let x = occurrences_ending_in(p, t, base, a, b);
        let y = occurrences_ending_in(p, t, base, b, c - 1);
        if occurs_at(p, t, c - p.len()) {
            assert((x + y).push(base + c - p.len()) =~= x + y.push(base + c - p.len()));
        }
    }
}

/// Occurrences that end within the first `n` bytes do not depend on the bytes after them.
pub proof fn lemma_occurrences_extend(p: Seq<u8>, t: Seq<u8>, u: Seq<u8>, base: int, a: int, b: int)
    requires
        b <= t.len(),
        b <= u.len(),
        forall|i: int| 0 <= i < b ==> t[i] == u[i],
    ensures
        occurrences_ending_in(p, t, base, a, b) == occurrences_ending_in(p, u, base, a, b),
    decreases b - a,
{
    if b > a {
        lemma_occurrences_extend(p, t, u, base, a, b - 1);
        let s = b - p.len();
        if occurs_at(p, t, s) {
            assert forall|x: int| 0 <= x < p.len() implies #[trigger] u[s + x] == p[x] by {
                assert(t[s + x] == p[x]);
            }
        }
        if occurs_at(p, u, s) {
            assert forall|x: int| 0 <= x < p.len() implies #[trigger] t[s + x] == p[x] by {
                assert(u[s + x] == p[x]);
            }
        }
    }
}

/// What the occurrence list holds, and that it is strictly increasing.
pub proof fn lemma_occurrences_members(p: Seq<u8>, t: Seq<u8>, base: int, a: int, b: int)
    requires
        p.len() >= 1,
        0 <= a,
    ensures
        forall|s: int|
            #[trigger] occurrences_ending_in(p, t, base, a, b).contains(s) <==> (a < s - base + p.len()
                <= b && occurs_at(p, t, s - base)),
        forall|i: int, k: int|
            0 <= i < k < occurrences_ending_in(p, t, base, a, b).len() ==> #[trigger] occurrences_ending_in(
                p, t, base, a, b)[i] < #[trigger] occurrences_ending_in(p, t, base, a, b)[k],
        forall|i: int|
            0 <= i < occurrences_ending_in(p, t, base, a, b).len() ==> a < #[trigger] occurrences_ending_in(
                p, t, base, a, b)[i] - base + p.len() <= b,
    decreases b - a,
{
    if b > a {
        lemma_occurrences_members(p, t, base, a, b - 1);
        let prev = occurrences_ending_in(p, t, base, a, b - 1);
        let s = base + b - p.len();
        if occurs_at(p, t, b - p.len()) {
            assert forall|x: int| prev.push(s).contains(x) <==> (prev.contains(x) || x == s) by {
                if prev.push(s).contains(x) {
                    let i = choose|i: int| 0 <= i < prev.push(s).len() && prev.push(s)[i] == x;
                    if i < prev.len() {
                        assert(prev.contains(x));
                    }
                }
                if prev.contains(x) {
                    let i = choose|i: int| 0 <= i < prev.len() && prev[i] == x;
                    assert(prev.push(s)[i] == x);
                }
                if x == s {
                    assert(prev.push(s)[prev.len() as int] == x);
                }
            }
        }
        let cur = occurrences_ending_in(p, t, base, a, b);
        assert forall|x: int| #[trigger] cur.contains(x) <==> (a < x - base + p.len() <= b && occurs_at(p, t, x - base)) by {
            assert(prev.contains(x) <==> (a < x - base + p.len() <= b - 1 && occurs_at(p, t, x - base)));
            if occurs_at(p, t, b - p.len()) {
                assert(cur == prev.push(s));
                assert(cur.contains(x) <==> (prev.contains(x) || x == s));
            } else {
                assert(cur == prev);
            }
            if x - base + p.len() == b {
                assert(x - base == b - p.len());
            }
        }
    }
}

/// The automaton finds exactly what the naive scan finds: the offsets in the occurrence
/// list are the offsets at which the pattern occurs, overlapping occurrences included.
pub proof fn lemma_scan_equals_naive(p: Seq<u8>, t: Seq<u8>)
    requires
        p.len() >= 1,
    ensures
        occurrences(p, t, 0).to_set() == naive_starts(p, t),
{
    lemma_occurrences_members(p, t, 0, 0, t.len() as int);
    assert(occurrences(p, t, 0).to_set() =~= naive_starts(p, t));
}

/// The bytes of a list of chunks, read one after another.
pub open spec fn concat_chunks(chunks: Seq<Seq<u8>>) -> Seq<u8>
    decreases chunks.len(),
{
    if chunks.len() == 0 {
        Seq::empty()
    } else {
        concat_chunks(chunks.drop_last()) + chunks.last()
    }
}

/// The occurrences, shifted by `base`, that a scan reports when it reads the stream as
/// the given chunks: each chunk adds those that end inside it.
pub open spec fn found_after_chunks(p: Seq<u8>, base: int, chunks: Seq<Seq<u8>>) -> Seq<int>
    decreases chunks.len(),
{
    if chunks.len() == 0 {
        Seq::empty()
    } else {
        let before = concat_chunks(chunks.drop_last());
        found_after_chunks(p, base, chunks.drop_last()) + occurrences_ending_in(
            p,
            before + chunks.last(),
            base,
            before.len() as int,
            (before.len() + chunks.last().len()) as int,
        )
    }
}

/// Reading a stream as any number of chunks, split anywhere, reports the same
/// occurrences as reading it as one chunk.
pub proof fn lemma_chunked_scan(p: Seq<u8>, base: int, chunks: Seq<Seq<u8>>)
    ensures
        found_after_chunks(p, base, chunks) == found_after_chunks(p, base, seq![concat_chunks(chunks)]),
        found_after_chunks(p, base, chunks) == occurrences(p, concat_chunks(chunks), base),
    decreases chunks.len(),
{
    let whole = concat_chunks(chunks);
    let one = seq![whole];
    assert(one.drop_last() =~= Seq::<Seq<u8>>::empty());
    assert(concat_chunks(one.drop_last()) =~= Seq::<u8>::empty());
    assert(Seq::<u8>::empty() + whole =~= whole);
    assert(found_after_chunks(p, base, one.drop_last()) =~= Seq::<int>::empty());
    assert(Seq::<int>::empty() + occurrences(p, whole, base) =~= occurrences(p, whole, base));
    if chunks.len() > 0 {
        let before = concat_chunks(chunks.drop_last());
        lemma_chunked_scan(p, base, chunks.drop_last());
        lemma_occurrences_extend(p, before, whole, base, 0, before.len() as int);
        lemma_occurrences_split(p, whole, base, 0, before.len() as int, whole.len() as int);
    }
}

} // verus!
