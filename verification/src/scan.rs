//! Looking for the next match that is worth a block. The scan moves through the new data
//! and asks the suffix array for the longest match at each position. It stops at a match
//! that is clearly better than going on at the offset of the last block, or when the search
//! results have stopped changing for a while.

use vstd::prelude::*;
use crate::extend::at;
use crate::search::{
    is_search_index, lemma_common_prefix_len, lemma_search_is_longest, lemma_search_is_match,
    lemma_search_len, positions_within, search, search_spec, Match,
};
use crate::State;

verus! {

/// Tolerance within which two consecutive search results count as the same.
pub const FUZZ: i64 = 8;

/// How many consecutive search results may stay the same before the scan gives up.
pub const STALL_LIMIT: i64 = 100;

/// The scan reports its position whenever that is a multiple of this.
pub const PROGRESS_STEP: i64 = 100_000;

/// The byte of the new data at `at` is the byte of the old data `offset` bytes further on.
pub open spec fn aligned(old: Seq<u8>, new: Seq<u8>, offset: int, at: int) -> bool {
    0 <= at < new.len() && 0 <= at + offset < old.len() && old[at + offset] == new[at]
}

/// Number of positions in `from..to` of the new data that are aligned at `offset`.
pub open spec fn aligned_count(old: Seq<u8>, new: Seq<u8>, offset: int, from: int, to: int) -> int
    decreases to - from,
{
    if to <= from {
        0
    } else {
        aligned_count(old, new, offset, from, to - 1) + if aligned(old, new, offset, to - 1) {
            1int
        } else {
            0int
        }
    }
}

pub proof fn lemma_aligned_count_bounds(old: Seq<u8>, new: Seq<u8>, offset: int, from: int, to: int)
    ensures
        0 <= aligned_count(old, new, offset, from, to),
        from <= to ==> aligned_count(old, new, offset, from, to) <= to - from,
    decreases to - from,
{
    if from < to {
        lemma_aligned_count_bounds(old, new, offset, from, to - 1);
    }
}

/// The state of a scan.
pub struct Scan {
    /// Position in the new data.
    pub scan: int,
    /// Length of the match found last.
    pub len: int,
    /// Position in the old data of the match found last.
    pub pos: int,
    /// Number of aligned positions from `scan` up to `scsc`, counted negative while `scsc`
    /// is behind `scan`.
    pub oldscore: int,
    /// How far the aligned positions have been counted.
    pub scsc: int,
    /// Number of search results in a row that stayed the same.
    pub stalls: int,
}

/// The longest match for the new data from `scan` on that the search in `sa` finds. The
/// array holds one entry more than the text it indexes, which is the start of `old`.
pub open spec fn match_at(sa: Seq<i32>, old: Seq<u8>, new: Seq<u8>, scan: int) -> Match {
    search_spec(sa, old.take(sa.len() - 1), new.skip(scan), 0, sa.len() - 1)
}

/// A search result stays the same as the one before: the length and the score went down by
/// at most `FUZZ`, the position went up by at most `FUZZ`, and the length is at most
/// `FUZZ` above the score.
pub open spec fn stalled(before: Scan, len: int, oldscore: int, pos: int) -> bool {
    &&& before.len - FUZZ <= len <= before.len
    &&& before.oldscore - FUZZ <= oldscore <= before.oldscore
    &&& before.pos <= pos <= before.pos + FUZZ
    &&& oldscore <= len <= oldscore + FUZZ
}

/// Where a scan that is in state `s` stops, with the last block's offset being `offset`.
///
/// At each position the match is looked up and the aligned positions are counted up to its
/// end. The scan stops there if the match is not empty and all of it is aligned, or if it
/// is more than 8 bytes longer than the count. Else it steps over the position, and stops
/// if more than `STALL_LIMIT` results in a row have stayed the same. It also stops at the
/// end of the new data.
pub open spec fn scan_on(sa: Seq<i32>, old: Seq<u8>, new: Seq<u8>, offset: int, s: Scan) -> Scan
    decreases new.len() - s.scan,
{
    if s.scan >= new.len() {
        s
    } else {
        let found = match_at(sa, old, new, s.scan);
        let scsc = if s.scsc < s.scan + found.len {
            s.scan + found.len
        } else {
            s.scsc
        };
        let counted = s.oldscore + aligned_count(old, new, offset, s.scsc, scsc);
        if (found.len == counted && found.len != 0) || found.len > counted + 8 {
            Scan { len: found.len, pos: found.pos, oldscore: counted, scsc, ..s }
        } else {
            let oldscore = if aligned(old, new, offset, s.scan) {
                counted - 1
            } else {
                counted
            };
            let stalls = if stalled(s, found.len, oldscore, found.pos) {
                s.stalls + 1
            } else {
                0
            };
            let next = Scan {
                scan: s.scan,
                len: found.len,
                pos: found.pos,
                oldscore,
                scsc,
                stalls,
            };
            if stalls > STALL_LIMIT {
                next
            } else {
                scan_on(sa, old, new, offset, Scan { scan: s.scan + 1, ..next })
            }
        }
    }
}

/// A scan does not go back, and the match it stops at has a length.
pub proof fn lemma_scan_on_forward(sa: Seq<i32>, old: Seq<u8>, new: Seq<u8>, offset: int, s: Scan)
    requires
        0 <= s.len,
    ensures
        s.scan <= scan_on(sa, old, new, offset, s).scan,
        0 <= scan_on(sa, old, new, offset, s).len,
        s.scan >= new.len() ==> scan_on(sa, old, new, offset, s) == s,
    decreases new.len() - s.scan,
{
    if s.scan < new.len() {
        let found = match_at(sa, old, new, s.scan);
        lemma_search_len(sa, old.take(sa.len() - 1), new.skip(s.scan), 0, sa.len() - 1);
        let scsc = if s.scsc < s.scan + found.len {
            s.scan + found.len
        } else {
            s.scsc
        };
        let counted = s.oldscore + aligned_count(old, new, offset, s.scsc, scsc);
        if (found.len == counted && found.len != 0) || found.len > counted + 8 {
        } else {
            let oldscore = if aligned(old, new, offset, s.scan) {
                counted - 1
            } else {
                counted
            };
            let stalls = if stalled(s, found.len, oldscore, found.pos) {
                s.stalls + 1
            } else {
                0
            };
            if stalls > STALL_LIMIT {
            } else {
                lemma_scan_on_forward(
                    sa,
                    old,
                    new,
                    offset,
                    Scan {
                        scan: s.scan + 1,
                        len: found.len,
                        pos: found.pos,
                        oldscore,
                        scsc,
                        stalls,
                    },
                );
            }
        }
    }
}

/// A scan stays inside the new data, and the match it stops at lies inside the old and the
/// new data.
pub proof fn lemma_scan_on_bounds(sa: Seq<i32>, old: Seq<u8>, new: Seq<u8>, offset: int, s: Scan)
    requires
        1 <= sa.len() <= old.len() + 1,
        positions_within(sa, sa.len() - 1),
        0 <= s.scan <= new.len(),
        0 <= s.len,
        0 <= s.pos < sa.len(),
    ensures
        ({
            let r = scan_on(sa, old, new, offset, s);
            &&& s.scan <= r.scan <= new.len()
            &&& 0 <= r.len
            &&& 0 <= r.pos < sa.len()
            &&& r.scan < new.len() ==> r.scan + r.len <= new.len()
        }),
    decreases new.len() - s.scan,
{
    if s.scan < new.len() {
        let found = match_at(sa, old, new, s.scan);
        lemma_search_is_match(sa, old.take(sa.len() - 1), new.skip(s.scan), 0, sa.len() - 1);
        let scsc = if s.scsc < s.scan + found.len {
            s.scan + found.len
        } else {
            s.scsc
        };
        let counted = s.oldscore + aligned_count(old, new, offset, s.scsc, scsc);
        if (found.len == counted && found.len != 0) || found.len > counted + 8 {
        } else {
            let oldscore = if aligned(old, new, offset, s.scan) {
                counted - 1
            } else {
                counted
            };
            let stalls = if stalled(s, found.len, oldscore, found.pos) {
                s.stalls + 1
            } else {
                0
            };
            if stalls > STALL_LIMIT {
            } else {
                lemma_scan_on_bounds(
                    sa,
                    old,
                    new,
                    offset,
                    Scan {
                        scan: s.scan + 1,
                        len: found.len,
                        pos: found.pos,
                        oldscore,
                        scsc,
                        stalls,
                    },
                );
            }
        }
    }
}

/// A scan that starts inside the new data moves on or stops at a match that is not empty.
pub proof fn lemma_scan_on_progress(
    sa: Seq<i32>,
    old: Seq<u8>,
    new: Seq<u8>,
    offset: int,
    start: int,
    len: int,
    pos: int,
)
    requires
        0 <= len,
        start < new.len(),
    ensures
        ({
            let s = scan_on(sa, old, new, offset, scan_start(start, len, pos));
            s.scan > start || s.len >= 1
        }),
{
    let s = scan_start(start, len, pos);
    let found = match_at(sa, old, new, s.scan);
    lemma_search_len(sa, old.take(sa.len() - 1), new.skip(s.scan), 0, sa.len() - 1);
    let scsc = if s.scsc < s.scan + found.len {
        s.scan + found.len
    } else {
        s.scsc
    };
    lemma_aligned_count_bounds(old, new, offset, s.scsc, scsc);
    let counted = s.oldscore + aligned_count(old, new, offset, s.scsc, scsc);
    if (found.len == counted && found.len != 0) || found.len > counted + 8 {
    } else {
        let oldscore = if aligned(old, new, offset, s.scan) {
            counted - 1
        } else {
            counted
        };
        let stalls = if stalled(s, found.len, oldscore, found.pos) {
            s.stalls + 1
        } else {
            0
        };
        lemma_scan_on_forward(
            sa,
            old,
            new,
            offset,
            Scan { scan: s.scan + 1, len: found.len, pos: found.pos, oldscore, scsc, stalls },
        );
    }
}

/// Aligned positions can be counted in two parts.
pub proof fn lemma_aligned_count_split(
    old: Seq<u8>,
    new: Seq<u8>,
    offset: int,
    from: int,
    mid: int,
    to: int,
)
    requires
        from <= mid <= to,
    ensures
        aligned_count(old, new, offset, from, to) == aligned_count(old, new, offset, from, mid)
            + aligned_count(old, new, offset, mid, to),
    decreases to - mid,
{
    if mid < to {
        lemma_aligned_count_split(old, new, offset, from, mid, to - 1);
    }
}

/// Where every position is aligned, the count is the number of positions.
pub proof fn lemma_aligned_count_full(old: Seq<u8>, new: Seq<u8>, offset: int, from: int, to: int)
    requires
        from <= to,
        forall|at: int| from <= at < to ==> aligned(old, new, offset, at),
    ensures
        aligned_count(old, new, offset, from, to) == to - from,
    decreases to - from,
{
    if from < to {
        lemma_aligned_count_full(old, new, offset, from, to - 1);
    }
}

/// The score of the scan is the number of aligned positions between the scan and the
/// place up to which they were counted, negative if that place is behind the scan.
pub open spec fn counted(old: Seq<u8>, new: Seq<u8>, offset: int, s: Scan) -> bool {
    if s.scan <= s.scsc {
        s.oldscore == aligned_count(old, new, offset, s.scan, s.scsc)
    } else {
        s.oldscore == -aligned_count(old, new, offset, s.scsc, s.scan)
    }
}

/// With a suffix array of all the old data, a scan that stops inside the new data at a
/// match that continues the last block stops there because all of the match is aligned:
/// its length is its score.
pub proof fn lemma_scan_on_aligned(sa: Seq<i32>, old: Seq<u8>, new: Seq<u8>, offset: int, s: Scan)
    requires
        is_search_index(old, sa),
        0 <= s.scan <= new.len(),
        counted(old, new, offset, s),
    ensures
        ({
            let r = scan_on(sa, old, new, offset, s);
            r.scan < new.len() && r.pos - r.scan == offset ==> r.len == r.oldscore
        }),
    decreases new.len() - s.scan,
{
    if s.scan < new.len() {
        let query = new.skip(s.scan);
        let found = match_at(sa, old, new, s.scan);
        assert(old.take(sa.len() - 1) =~= old);
        assert forall|i: int| 0 <= i < sa.len() implies 0 <= #[trigger] sa[i] <= old.len() by {
            if i < sa.len() - 1 {
                assert(sa.drop_last()[i] == sa[i]);
            }
        }
        lemma_search_is_match(sa, old, query, 0, sa.len() - 1);
        lemma_common_prefix_len(old.skip(found.pos), query);
        let scsc = if s.scsc < s.scan + found.len {
            s.scan + found.len
        } else {
            s.scsc
        };
        let score = s.oldscore + aligned_count(old, new, offset, s.scsc, scsc);
        // The score counts the aligned positions between the scan and `scsc`.
        if s.scan <= s.scsc {
            lemma_aligned_count_split(old, new, offset, s.scan, s.scsc, scsc);
        } else {
            lemma_aligned_count_split(old, new, offset, s.scsc, s.scan, scsc);
        }
        assert(score == aligned_count(old, new, offset, s.scan, scsc));
        let oldscore = if aligned(old, new, offset, s.scan) {
            score - 1
        } else {
            score
        };
        let stalls = if stalled(s, found.len, oldscore, found.pos) {
            s.stalls + 1
        } else {
            0
        };
        let next = Scan {
            scan: s.scan + 1,
            len: found.len,
            pos: found.pos,
            oldscore,
            scsc,
            stalls,
        };
        if s.scan < scsc {
            lemma_aligned_count_split(old, new, offset, s.scan, s.scan + 1, scsc);
        }
        assert(aligned_count(old, new, offset, s.scan, s.scan + 1) == if aligned(
            old,
            new,
            offset,
            s.scan,
        ) {
            1int
        } else {
            0int
        }) by {
            assert(aligned_count(old, new, offset, s.scan, s.scan) == 0);
        }
        assert(counted(old, new, offset, next));
        if found.pos - s.scan == offset {
            // Every position of the match is aligned.
            assert forall|at: int| s.scan <= at < s.scan + found.len implies aligned(
                old,
                new,
                offset,
                at,
            ) by {
                assert(old.skip(found.pos)[at - s.scan] == query[at - s.scan]);
            }
            lemma_aligned_count_full(old, new, offset, s.scan, s.scan + found.len);
            lemma_aligned_count_split(old, new, offset, s.scan, s.scan + found.len, scsc);
            lemma_aligned_count_bounds(old, new, offset, s.scan + found.len, scsc);
            assert(score >= found.len);
            if found.len == 0 && 0 <= s.scan + offset < old.len() {
                // No match is longer than the empty one that was found, so the byte at
                // the aligned position is not the one looked for.
                let at = s.scan + offset;
                lemma_search_is_longest(sa, old, query, at);
                lemma_common_prefix_len(old.skip(at), query);
                assert(old.skip(at)[0] != query[0]);
                assert(!aligned(old, new, offset, s.scan));
            }
        }
        if (found.len == score && found.len != 0) || found.len > score + 8 {
        } else if stalls > STALL_LIMIT {
        } else {
            lemma_scan_on_aligned(sa, old, new, offset, next);
        }
    }
}

/// The state in which a scan starts at `start`, the last match being `len` bytes at `pos`.
pub open spec fn scan_start(start: int, len: int, pos: int) -> Scan {
    Scan { scan: start, len, pos, oldscore: 0, scsc: start, stalls: 0 }
}

/// The callback still takes the states that it took before.
pub open spec fn still_takes<F: FnMut(State)>(before: F, after: F) -> bool {
    forall|state: State|
        call_requires(before, (state,)) ==> #[trigger] call_requires(after, (state,))
}

/// A match that the scan stopped at.
pub struct Candidate {
    /// Position in the new data.
    pub scan: i64,
    /// Length of the match.
    pub len: i64,
    /// Position of the match in the old data.
    pub pos: i64,
    /// Number of positions from `scan` on that are aligned with the last block.
    pub oldscore: i64,
}

impl Candidate {
    /// The candidate holds where the scan `s` stopped.
    pub open spec fn is(self, s: Scan) -> bool {
        self.scan == s.scan && self.len == s.len && self.pos == s.pos && self.oldscore
            == s.oldscore
    }
}

/// The callback takes what a scan reports of its work on the new data that lies between
/// `from` and `to` among all the new data: the positions that are a multiple of
/// `PROGRESS_STEP` bytes behind `from`.
pub open spec fn takes_working<F: FnMut(State)>(progress: F, from: int, to: int) -> bool {
    forall|done: u64|
        from <= done < to && (done - from) % (PROGRESS_STEP as int) == 0
            ==> #[trigger] call_requires(progress, (State::Working(done),))
}

/// Scans the new data from `start` on for the next match worth a block. The last match was
/// `last_len` bytes at `last_pos`, and the last block ended `lastoffset` bytes apart in the old and the
/// new data. `sorted` is the suffix array of the first `sorted.len() - 1` bytes of `old_f`,
/// with one more entry at its end. Its position, counted from `base`, is reported to
/// `progress` whenever it is a multiple of `PROGRESS_STEP`.
pub fn next_candidate<F: FnMut(State)>(
    sorted: &[i32],
    old_f: &[u8],
    new_f: &[u8],
    lastoffset: i64,
    start: i64,
    last_len: i64,
    last_pos: i64,
    base: u64,
    progress: &mut F,
) -> (c: Candidate)
    requires
        1 <= sorted.len() <= old_f.len() + 1,
        positions_within(sorted@, sorted.len() - 1),
        old_f.len() <= i32::MAX,
        new_f.len() <= i32::MAX,
        0 <= start <= new_f.len(),
        0 <= last_len <= new_f.len(),
        0 <= last_pos < sorted.len(),
        0 <= start + lastoffset,
        -i32::MAX <= lastoffset <= i32::MAX,
        base + new_f.len() <= u64::MAX,
        takes_working(*old(progress), base as int, base + new_f.len()),
    ensures
        c.is(
            scan_on(
                sorted@,
                old_f@,
                new_f@,
                lastoffset as int,
                scan_start(start as int, last_len as int, last_pos as int),
            ),
        ),
        start <= c.scan <= new_f.len(),
        0 <= c.len <= new_f.len(),
        0 <= c.pos < sorted.len(),
        c.scan < new_f.len() ==> c.scan + c.len <= new_f.len() && start < c.scan + c.len,
        -new_f.len() <= c.oldscore <= new_f.len(),
        still_takes(*old(progress), *final(progress)),
{
    let ghost goal = scan_on(
        sorted@,
        old_f@,
        new_f@,
        lastoffset as int,
        scan_start(start as int, last_len as int, last_pos as int),
    );
    let n = new_f.len() as i64;
    let text_len = sorted.len() - 1;
    let mut scan = start;
    let mut len = last_len;
    let mut pos = last_pos;
    let mut oldscore: i64 = 0;
    let mut scsc = start;
    let mut num_less_than_eight: i64 = 0;
    while scan < n
        invariant
            1 <= sorted.len() <= old_f.len() + 1,
            text_len == sorted.len() - 1,
            positions_within(sorted@, sorted.len() - 1),
            old_f.len() <= i32::MAX,
            n == new_f.len() <= i32::MAX,
            0 <= start <= scan <= n,
            0 <= len <= n,
            0 <= pos <= text_len,
            0 <= start + lastoffset,
            -i32::MAX <= lastoffset <= i32::MAX,
            start <= scsc <= n,
            start - scan <= oldscore <= scsc - start,
            0 <= num_less_than_eight <= scan - start,
            base + new_f.len() <= u64::MAX,
            takes_working(*progress, base as int, base + new_f.len()),
            still_takes(*old(progress), *progress),
            goal == scan_on(
                sorted@,
                old_f@,
                new_f@,
                lastoffset as int,
                scan_start(start as int, last_len as int, last_pos as int),
            ),
            goal == scan_on(
                sorted@,
                old_f@,
                new_f@,
                lastoffset as int,
                Scan {
                    scan: scan as int,
                    len: len as int,
                    pos: pos as int,
                    oldscore: oldscore as int,
                    scsc: scsc as int,
                    stalls: num_less_than_eight as int,
                },
            ),
        decreases n - scan,
    {
        if scan % PROGRESS_STEP == 0 {
            progress(State::Working(base + scan as u64));
        }
        let ghost before = Scan {
            scan: scan as int,
            len: len as int,
            pos: pos as int,
            oldscore: oldscore as int,
            scsc: scsc as int,
            stalls: num_less_than_eight as int,
        };
        let prev_len = len;
        let prev_oldscore = oldscore;
        let prev_pos = pos;
        let ghost prev_scsc = scsc;

        len = search(
            sorted,
            &old_f[0..text_len],
            &new_f[scan as usize..new_f.len()],
            0,
            text_len,
            &mut pos,
        );
        let ghost found = match_at(sorted@, old_f@, new_f@, scan as int);
        proof {
            assert(old_f@.subrange(0, text_len as int) =~= old_f@.take(sorted@.len() - 1));
            assert(new_f@.subrange(scan as int, new_f.len() as int) =~= new_f@.skip(scan as int));
            lemma_search_is_match(
                sorted@,
                old_f@.take(sorted@.len() - 1),
                new_f@.skip(scan as int),
                0,
                sorted@.len() - 1,
            );
        }

        while scsc < scan + len
            invariant
                old_f.len() <= i32::MAX,
                n == new_f.len() <= i32::MAX,
                0 <= start <= scan < n,
                0 <= len,
                scan + len <= n,
                0 <= start + lastoffset,
                -i32::MAX <= lastoffset <= i32::MAX,
                start <= prev_scsc <= scsc <= n,
                scsc == prev_scsc || scsc <= scan + len,
                oldscore == prev_oldscore + aligned_count(
                    old_f@,
                    new_f@,
                    lastoffset as int,
                    prev_scsc as int,
                    scsc as int,
                ),
                start - scan <= prev_oldscore <= prev_scsc - start,
                prev_oldscore <= oldscore <= scsc - start,
            decreases n - scsc,
        {
            if scsc + lastoffset < old_f.len() as i64 && at(old_f, scsc + lastoffset) == at(new_f, scsc) {
                oldscore += 1;
            }
            scsc += 1;
        }

        assert(found.len == len && found.pos == pos);
        if (len == oldscore && len != 0) || len > oldscore + 8 {
            return Candidate { scan, len, pos, oldscore };
        }
        if scan + lastoffset < old_f.len() as i64 && at(old_f, scan + lastoffset) == at(new_f, scan) {
            oldscore -= 1;
        }
        if prev_len - FUZZ <= len && len <= prev_len && prev_oldscore - FUZZ <= oldscore
            && oldscore <= prev_oldscore && prev_pos <= pos && pos <= prev_pos + FUZZ && oldscore
            <= len && len <= oldscore + FUZZ {
            num_less_than_eight += 1;
        } else {
            num_less_than_eight = 0;
        }
        if num_less_than_eight > STALL_LIMIT {
            return Candidate { scan, len, pos, oldscore };
        }
        scan += 1;
    }
    Candidate { scan, len, pos, oldscore }
}

} // verus!
