//! Extending matches. Between the end of the last block and the next exact match, the new
//! data mostly follows the old data on one side or the other. The forward extension says
//! how far it follows the old data behind the last block, the backward extension how far it
//! follows the old data in front of the next match; where the two runs overlap, a split
//! decides which side each byte goes to. Each of the three is the first place at which a
//! score is highest.

use vstd::math::min;
use vstd::prelude::*;

verus! {

/// The first of `0..=n` at which `f` is largest.
pub open spec fn first_max(f: spec_fn(int) -> int, n: int) -> int
    decreases n,
{
    if n <= 0 {
        0
    } else {
        let best = first_max(f, n - 1);
        if f(n) > f(best) {
            n
        } else {
            best
        }
    }
}

/// `k` is the first of `0..=n` at which `f` is largest.
pub open spec fn is_first_max(f: spec_fn(int) -> int, n: int, k: int) -> bool {
    &&& 0 <= k <= n
    &&& forall|i: int| 0 <= i <= n ==> #[trigger] f(i) <= f(k)
    &&& forall|i: int| 0 <= i < k ==> #[trigger] f(i) < f(k)
}

/// `first_max` is what its name says, and the only such number.
pub proof fn lemma_first_max(f: spec_fn(int) -> int, n: int)
    requires
        0 <= n,
    ensures
        is_first_max(f, n, first_max(f, n)),
        forall|k: int| is_first_max(f, n, k) ==> k == first_max(f, n),
    decreases n,
{
    if n > 0 {
        lemma_first_max(f, n - 1);
    }
    let m = first_max(f, n);
    assert forall|k: int| is_first_max(f, n, k) implies k == m by {
        if k < m {
            assert(f(k) < f(m));
        } else if m < k {
            assert(f(m) < f(k));
        }
    }
}

/// Number of `i` in `0..n` with `old[old_at + i] == new[new_at + i]`.
pub open spec fn same_count(old: Seq<u8>, new: Seq<u8>, old_at: int, new_at: int, n: int) -> int
    decreases n,
{
    if n <= 0 {
        0
    } else {
        same_count(old, new, old_at, new_at, n - 1) + if old[old_at + n - 1] == new[new_at + n
            - 1] {
            1int
        } else {
            0int
        }
    }
}

/// Number of `i` in `1..=n` with `old[old_at - i] == new[new_at - i]`.
pub open spec fn same_count_back(old: Seq<u8>, new: Seq<u8>, old_at: int, new_at: int, n: int) -> int
    decreases n,
{
    if n <= 0 {
        0
    } else {
        same_count_back(old, new, old_at, new_at, n - 1) + if old[old_at - n] == new[new_at - n] {
            1int
        } else {
            0int
        }
    }
}

/// The score of going `i` bytes forward from `old_at` and `new_at`: a byte that is the same
/// in both counts one, a byte that differs takes one away.
pub open spec fn forward_score(old: Seq<u8>, new: Seq<u8>, old_at: int, new_at: int) -> spec_fn(
    int,
) -> int {
    |i: int| 2 * same_count(old, new, old_at, new_at, i) - i
}

/// The score of going `i` bytes backward from `old_at` and `new_at`.
pub open spec fn backward_score(old: Seq<u8>, new: Seq<u8>, old_at: int, new_at: int) -> spec_fn(
    int,
) -> int {
    |i: int| 2 * same_count_back(old, new, old_at, new_at, i) - i
}

/// The score of giving the first `i` bytes of an overlap to the forward run: the bytes
/// that are the same as the old data of the forward run, less those that are the same as
/// the old data of the backward run.
pub open spec fn split_score(
    old: Seq<u8>,
    new: Seq<u8>,
    forward_old: int,
    forward_new: int,
    backward_old: int,
    backward_new: int,
) -> spec_fn(int) -> int {
    |i: int|
        same_count(old, new, forward_old, forward_new, i) - same_count(
            old,
            new,
            backward_old,
            backward_new,
            i,
        )
}

/// How many bytes after `lastscan` in the new data go with the bytes after `lastpos` in the
/// old data: the first length, up to `scan` and to the end of the old data, with the
/// highest forward score.
pub open spec fn forward_len(old: Seq<u8>, new: Seq<u8>, lastscan: int, lastpos: int, scan: int) -> int {
    first_max(
        forward_score(old, new, lastpos, lastscan),
        min(scan - lastscan, old.len() - lastpos),
    )
}

/// How many bytes before `scan` in the new data go with the bytes before `pos` in the old
/// data: the first length, down to `lastscan` and to the start of the old data, with the
/// highest backward score. Nothing goes backward from the end of the new data.
pub open spec fn backward_len(old: Seq<u8>, new: Seq<u8>, lastscan: int, scan: int, pos: int) -> int {
    if scan < new.len() {
        first_max(backward_score(old, new, pos, scan), min(scan - lastscan, pos))
    } else {
        0
    }
}

/// How many bytes of an overlap of `overlap` bytes stay with the forward run of `lenf`
/// bytes, the rest going to the backward run of `lenb` bytes.
pub open spec fn split_len(
    old: Seq<u8>,
    new: Seq<u8>,
    lastscan: int,
    lastpos: int,
    scan: int,
    pos: int,
    lenf: int,
    lenb: int,
) -> int {
    let overlap = (lastscan + lenf) - (scan - lenb);
    first_max(
        split_score(
            old,
            new,
            lastpos + lenf - overlap,
            lastscan + lenf - overlap,
            pos - lenb,
            scan - lenb,
        ),
        overlap,
    )
}

/// Where a block ends and the next one begins.
pub struct Cut {
    /// Bytes behind the last block that are written as differences to the old data.
    pub lenf: int,
    /// Bytes in front of the next match that are left to the next block.
    pub lenb: int,
}

/// The cut for the block from `lastscan` to the match found at `scan`: the forward and the
/// backward extension, and if they overlap the split of the overlap.
pub open spec fn cut(old: Seq<u8>, new: Seq<u8>, lastscan: int, lastpos: int, scan: int, pos: int) -> Cut {
    let lenf = forward_len(old, new, lastscan, lastpos, scan);
    let lenb = backward_len(old, new, lastscan, scan, pos);
    if lastscan + lenf > scan - lenb {
        let overlap = (lastscan + lenf) - (scan - lenb);
        let lens = split_len(old, new, lastscan, lastpos, scan, pos, lenf, lenb);
        Cut { lenf: lenf + lens - overlap, lenb: lenb - lens }
    } else {
        Cut { lenf, lenb }
    }
}

/// A cut leaves both runs inside the data and in order: the forward run ends before the
/// backward run begins.
pub proof fn lemma_cut_bounds(old: Seq<u8>, new: Seq<u8>, lastscan: int, lastpos: int, scan: int, pos: int)
    requires
        0 <= lastscan <= scan <= new.len(),
        0 <= lastpos <= old.len(),
        0 <= pos <= old.len(),
    ensures
        ({
            let c = cut(old, new, lastscan, lastpos, scan, pos);
            &&& 0 <= c.lenf
            &&& 0 <= c.lenb <= pos
            &&& lastpos + c.lenf <= old.len()
            &&& lastscan + c.lenf <= scan - c.lenb
            &&& scan == new.len() ==> c.lenb == 0
        }),
{
    let lenf = forward_len(old, new, lastscan, lastpos, scan);
    let lenb = backward_len(old, new, lastscan, scan, pos);
    lemma_first_max(
        forward_score(old, new, lastpos, lastscan),
        min(scan - lastscan, old.len() - lastpos),
    );
    if scan < new.len() {
        lemma_first_max(backward_score(old, new, pos, scan), min(scan - lastscan, pos));
    }
    if lastscan + lenf > scan - lenb {
        let overlap = (lastscan + lenf) - (scan - lenb);
        lemma_first_max(
            split_score(
                old,
                new,
                lastpos + lenf - overlap,
                lastscan + lenf - overlap,
                pos - lenb,
                scan - lenb,
            ),
            overlap,
        );
    }
}

/// The byte of `data` at `i`.
pub fn at(data: &[u8], i: i64) -> (byte: u8)
    requires
        0 <= i < data.len(),
    ensures
        byte == data@[i as int],
{
    data[i as usize]
}

/// Forward extension: how many bytes behind `lastscan` go with the old data behind
/// `lastpos`.
pub fn forward_extension(old: &[u8], new: &[u8], lastscan: i64, lastpos: i64, scan: i64) -> (lenf: i64)
    requires
        0 <= lastscan <= scan <= new.len() <= i32::MAX,
        0 <= lastpos <= old.len() <= i32::MAX,
    ensures
        lenf == forward_len(old@, new@, lastscan as int, lastpos as int, scan as int),
{
    let ghost f = forward_score(old@, new@, lastpos as int, lastscan as int);
    let ghost limit = min(scan - lastscan, old.len() - lastpos);
    let mut s: i64 = 0;
    let mut s_f: i64 = 0;
    let mut lenf: i64 = 0;
    let mut i: i64 = 0;
    while lastscan + i < scan && lastpos + i < old.len() as i64
        invariant
            0 <= lastscan <= scan <= new.len() <= i32::MAX,
            0 <= lastpos <= old.len() <= i32::MAX,
            f == forward_score(old@, new@, lastpos as int, lastscan as int),
            limit == min(scan - lastscan, old.len() - lastpos),
            0 <= i <= limit,
            0 <= s <= i,
            s == same_count(old@, new@, lastpos as int, lastscan as int, i as int),
            0 <= lenf <= i,
            lenf == first_max(f, i as int),
            0 <= s_f <= lenf,
            s_f == same_count(old@, new@, lastpos as int, lastscan as int, lenf as int),
        decreases limit - i,
    {
        if at(old, lastpos + i) == at(new, lastscan + i) {
            s += 1;
        }
        i += 1;
        if s * 2 - i > s_f * 2 - lenf {
            s_f = s;
            lenf = i;
        }
    }
    lenf
}

/// Backward extension: how many bytes in front of `scan` go with the old data in front of
/// `pos`.
pub fn backward_extension(old: &[u8], new: &[u8], lastscan: i64, scan: i64, pos: i64) -> (lenb: i64)
    requires
        0 <= lastscan <= scan < new.len() <= i32::MAX,
        0 <= pos <= old.len() <= i32::MAX,
    ensures
        lenb == backward_len(old@, new@, lastscan as int, scan as int, pos as int),
{
    let ghost g = backward_score(old@, new@, pos as int, scan as int);
    let ghost limit = min(scan - lastscan, pos as int);
    let mut s: i64 = 0;
    let mut s_b: i64 = 0;
    let mut lenb: i64 = 0;
    let mut i: i64 = 1;
    while scan >= lastscan + i && pos >= i
        invariant
            0 <= lastscan <= scan < new.len() <= i32::MAX,
            0 <= pos <= old.len() <= i32::MAX,
            g == backward_score(old@, new@, pos as int, scan as int),
            limit == min(scan - lastscan, pos as int),
            1 <= i <= limit + 1,
            0 <= s < i,
            s == same_count_back(old@, new@, pos as int, scan as int, i - 1),
            0 <= lenb < i,
            lenb == first_max(g, i - 1),
            0 <= s_b <= lenb,
            s_b == same_count_back(old@, new@, pos as int, scan as int, lenb as int),
        decreases limit + 1 - i,
    {
        if at(old, pos - i) == at(new, scan - i) {
            s += 1;
        }
        if s * 2 - i > s_b * 2 - lenb {
            s_b = s;
            lenb = i;
        }
        i += 1;
    }
    lenb
}

/// Splits the overlap of a forward run of `lenf` bytes and a backward run of `lenb` bytes:
/// returns how many bytes of the overlap stay with the forward run.
pub fn overlap_split(
    old: &[u8],
    new: &[u8],
    lastscan: i64,
    lastpos: i64,
    scan: i64,
    pos: i64,
    lenf: i64,
    lenb: i64,
) -> (lens: i64)
    requires
        0 <= lastscan <= scan <= new.len() <= i32::MAX,
        0 <= lastpos <= old.len() <= i32::MAX,
        0 <= pos <= old.len(),
        0 <= lenf <= scan - lastscan,
        lastpos + lenf <= old.len(),
        0 <= lenb <= scan - lastscan,
        lenb <= pos,
        lastscan + lenf > scan - lenb,
    ensures
        lens == split_len(
            old@,
            new@,
            lastscan as int,
            lastpos as int,
            scan as int,
            pos as int,
            lenf as int,
            lenb as int,
        ),
{
    let overlap: i64 = (lastscan + lenf) - (scan - lenb);
    let ghost h = split_score(
        old@,
        new@,
        lastpos + lenf - overlap,
        lastscan + lenf - overlap,
        pos - lenb,
        scan - lenb,
    );
    let mut s: i64 = 0;
    let mut s_s: i64 = 0;
    let mut lens: i64 = 0;
    let mut i: i64 = 0;
    while i < overlap
        invariant
            0 <= lastscan <= scan <= new.len() <= i32::MAX,
            0 <= lastpos <= old.len() <= i32::MAX,
            0 <= pos <= old.len(),
            0 <= lenf <= scan - lastscan,
            lastpos + lenf <= old.len(),
            0 <= lenb <= scan - lastscan,
            lenb <= pos,
            overlap == (lastscan + lenf) - (scan - lenb),
            overlap > 0,
            h == split_score(
                old@,
                new@,
                lastpos + lenf - overlap,
                lastscan + lenf - overlap,
                pos - lenb,
                scan - lenb,
            ),
            0 <= i <= overlap,
            -i <= s <= i,
            s == h(i as int),
            0 <= lens <= i,
            lens == first_max(h, i as int),
            s_s == h(lens as int),
            -i <= s_s <= i,
        decreases overlap - i,
    {
        if at(new, lastscan + lenf - overlap + i) == at(old, lastpos + lenf - overlap + i) {
            s += 1;
        }
        if at(new, scan - lenb + i) == at(old, pos - lenb + i) {
            s -= 1;
        }
        if s > s_s {
            s_s = s;
            lens = i + 1;
        }
        i += 1;
    }
    lens
}

/// Finds where the block that ends before the match at `scan` is cut: its forward
/// extension from `lastscan`, and the backward extension of the match, made disjoint.
pub fn extend(old: &[u8], new: &[u8], lastscan: i64, lastpos: i64, scan: i64, pos: i64) -> (r: (
    i64,
    i64,
))
    requires
        0 <= lastscan <= scan <= new.len() <= i32::MAX,
        0 <= lastpos <= old.len() <= i32::MAX,
        0 <= pos <= old.len(),
    ensures
        r.0 == cut(old@, new@, lastscan as int, lastpos as int, scan as int, pos as int).lenf,
        r.1 == cut(old@, new@, lastscan as int, lastpos as int, scan as int, pos as int).lenb,
{
    let mut lenf = forward_extension(old, new, lastscan, lastpos, scan);
    let mut lenb: i64 = 0;
    if scan < new.len() as i64 {
        lenb = backward_extension(old, new, lastscan, scan, pos);
    }
    proof {
        lemma_first_max(
            forward_score(old@, new@, lastpos as int, lastscan as int),
            min(scan - lastscan, old.len() - lastpos),
        );
        if scan < new.len() {
            lemma_first_max(
                backward_score(old@, new@, pos as int, scan as int),
                min(scan - lastscan, pos as int),
            );
        }
    }
    if lastscan + lenf > scan - lenb {
        let overlap = (lastscan + lenf) - (scan - lenb);
        let lens = overlap_split(old, new, lastscan, lastpos, scan, pos, lenf, lenb);
        proof {
            lemma_first_max(
                split_score(
                    old@,
                    new@,
                    lastpos + lenf - overlap,
                    lastscan + lenf - overlap,
                    pos - lenb,
                    scan - lenb,
                ),
                overlap as int,
            );
        }
        lenf += lens - overlap;
        lenb -= lens;
    }
    (lenf, lenb)
}

} // verus!
