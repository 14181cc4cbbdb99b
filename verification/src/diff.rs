//! Generating a patch. The generator walks through the new data; whenever the scan has
//! found the next match, it writes a block that covers the new data up to that match.

use vstd::math::min;
use vstd::prelude::*;
use crate::extend::{at, cut, extend, lemma_cut_bounds};
use crate::format::{
    be64, be64_value, ending_bytes, header_bytes, lemma_entry_round_trip, lemma_header_bytes,
    write_ending, write_entry, write_header, EntryHeader, DDELTA_MAGIC,
};
use crate::patch::{
    apply_all, apply_chunked_spec, apply_from, apply_spec, patched, Outcome,
};
use crate::scan::{
    lemma_scan_on_aligned, lemma_scan_on_bounds, lemma_scan_on_forward, lemma_scan_on_progress,
    next_candidate, scan_on, scan_start, still_takes, takes_working,
};
use crate::search::{
    is_search_index, is_suffix_array, lemma_suffix_array_exists, lemma_suffix_array_unique,
    positions_within, suffix_array,
};
use crate::stream::{
    blocks_bytes, blocks_give, blocks_give_within, is_patch, lemma_apply_patch_bytes,
    lemma_blocks_bytes_push, lemma_patch_applies, lemma_replay_in_part, lemma_replay_widen,
    patch_bytes, replay, Block, Replay,
};
use crate::{Error, State};

verus! {

/// Calls `divsufsort::sort` and takes the array out of what it returns. Taken on trust:
/// the array is the suffix array of `text`, that is, it holds the start of every suffix
/// but the empty one, in the lexicographic order of the suffixes. The sorter refuses
/// texts of `i32::MAX` bytes and more.
#[verifier::external_body]
fn suffix_sort(text: &[u8]) -> (sa: Vec<i32>)
    requires
        text.len() < i32::MAX,
    ensures
        is_suffix_array(text@, sa@),
{
    divsufsort::sort(text).into_parts().1
}

/// The difference of two bytes modulo 256.
pub open spec fn wrapping_difference(a: u8, b: u8) -> u8 {
    if a - b < 0 {
        (a - b + 256) as u8
    } else {
        (a - b) as u8
    }
}

/// The diff bytes for `n` bytes of the new data from `new_at` on against the old data from
/// `old_at` on: byte by byte the new data less the old data.
pub open spec fn diff_bytes(old: Seq<u8>, new: Seq<u8>, old_at: int, new_at: int, n: int) -> Seq<u8> {
    Seq::new(n as nat, |i: int| wrapping_difference(new[new_at + i], old[old_at + i]))
}

/// The block that covers the new data from `lastscan`, where the old data stands at
/// `lastpos`, up to the cut in front of the match of `scan` with `pos`. Its diff bytes
/// cover the forward extension, its literal bytes what lies between that and the cut, and
/// its seek leads to where the old data goes with the new data behind the cut.
pub open spec fn block_between(
    old: Seq<u8>,
    new: Seq<u8>,
    lastscan: int,
    lastpos: int,
    scan: int,
    pos: int,
) -> Block {
    let c = cut(old, new, lastscan, lastpos, scan, pos);
    Block {
        diff: diff_bytes(old, new, lastpos, lastscan, c.lenf),
        extra: new.subrange(lastscan + c.lenf, scan - c.lenb),
        seek: (pos - c.lenb) - (lastpos + c.lenf),
    }
}

/// The bytes that a block takes in a patch. A block that does nothing takes none: its
/// entry would end the patch.
pub open spec fn written(block: Block) -> Seq<u8> {
    if block.is_empty() {
        Seq::empty()
    } else {
        block.bytes()
    }
}

/// The block between two matches can be applied where the last block left the old data,
/// and produces the new data up to the cut. It is empty only if the cut is where the last
/// block ended, in the new and in the old data.
pub proof fn lemma_block_between(
    old: Seq<u8>,
    new: Seq<u8>,
    lastscan: int,
    lastpos: int,
    scan: int,
    pos: int,
)
    requires
        0 <= lastscan <= scan <= new.len() <= i32::MAX,
        0 <= lastpos <= old.len() <= i32::MAX,
        0 <= pos <= old.len(),
    ensures
        ({
            let c = cut(old, new, lastscan, lastpos, scan, pos);
            let b = block_between(old, new, lastscan, lastpos, scan, pos);
            &&& b.fits()
            &&& b.diff.len() == c.lenf
            &&& b.extra.len() == (scan - c.lenb) - (lastscan + c.lenf)
            &&& b.output(old, lastpos) == new.subrange(lastscan, scan - c.lenb)
            &&& !b.is_empty() ==> b.applies(old, lastpos, old.len() as int)
            &&& b.is_empty() ==> scan - c.lenb == lastscan && pos - c.lenb == lastpos
        }),
{
    let c = cut(old, new, lastscan, lastpos, scan, pos);
    let b = block_between(old, new, lastscan, lastpos, scan, pos);
    lemma_cut_bounds(old, new, lastscan, lastpos, scan, pos);
    assert(patched(old, lastpos, b.diff) =~= new.subrange(lastscan, lastscan + c.lenf));
    assert(b.output(old, lastpos) =~= new.subrange(lastscan, scan - c.lenb));
}

/// Writes the block that covers the new data from `lastscan` up to the cut in front of the
/// match of `scan` with `pos`, and returns the cut: the length of the forward extension
/// and that of the backward extension.
pub fn write_block(
    old_f: &[u8],
    new_f: &[u8],
    patch_f: &mut Vec<u8>,
    lastscan: i64,
    lastpos: i64,
    scan: i64,
    pos: i64,
) -> (r: (i64, i64))
    requires
        0 <= lastscan <= scan <= new_f.len() <= i32::MAX,
        0 <= lastpos <= old_f.len() <= i32::MAX,
        0 <= pos <= old_f.len(),
    ensures
        r.0 == cut(old_f@, new_f@, lastscan as int, lastpos as int, scan as int, pos as int).lenf,
        r.1 == cut(old_f@, new_f@, lastscan as int, lastpos as int, scan as int, pos as int).lenb,
        final(patch_f)@ == old(patch_f)@ + written(
            block_between(
                old_f@,
                new_f@,
                lastscan as int,
                lastpos as int,
                scan as int,
                pos as int,
            ),
        ),
{
    let ghost block = block_between(
        old_f@,
        new_f@,
        lastscan as int,
        lastpos as int,
        scan as int,
        pos as int,
    );
    let (lenf, lenb) = extend(old_f, new_f, lastscan, lastpos, scan, pos);
    proof {
        lemma_cut_bounds(old_f@, new_f@, lastscan as int, lastpos as int, scan as int, pos as int);
        lemma_block_between(
            old_f@,
            new_f@,
            lastscan as int,
            lastpos as int,
            scan as int,
            pos as int,
        );
    }
    let extra: i64 = (scan - lenb) - (lastscan + lenf);
    let seek: i64 = (pos - lenb) - (lastpos + lenf);
    if lenf == 0 && extra == 0 && seek == 0 {
        assert(patch_f@ =~= old(patch_f)@ + written(block));
        return (lenf, lenb);
    }
    let entry = EntryHeader { diff: lenf as u64, extra: extra as u64, seek };
    write_entry(patch_f, entry);
    let ghost with_entry = patch_f@;
    let mut i: i64 = 0;
    while i < lenf
        invariant
            0 <= i <= lenf,
            0 <= lastscan,
            lastscan + lenf <= new_f.len() <= i32::MAX,
            0 <= lastpos,
            lastpos + lenf <= old_f.len() <= i32::MAX,
            patch_f@ == with_entry + diff_bytes(
                old_f@,
                new_f@,
                lastpos as int,
                lastscan as int,
                i as int,
            ),
        decreases lenf - i,
    {
        patch_f.push(at(new_f, lastscan + i).wrapping_sub(at(old_f, lastpos + i)));
        assert(patch_f@ =~= with_entry + diff_bytes(
            old_f@,
            new_f@,
            lastpos as int,
            lastscan as int,
            i + 1,
        ));
        i += 1;
    }
    if extra != 0 {
        patch_f.extend_from_slice(&new_f[(lastscan + lenf) as usize..(scan - lenb) as usize]);
    }
    assert(patch_f@ =~= old(patch_f)@ + written(block));
    (lenf, lenb)
}

/// The state of the generator between two scans.
pub struct Anchor {
    /// Where the last scan stopped in the new data.
    pub scan: int,
    /// Length of the match that the last scan stopped at.
    pub len: int,
    /// Position of that match in the old data.
    pub pos: int,
    /// Where the last block ended in the new data.
    pub lastscan: int,
    /// Where the last block left the old data.
    pub lastpos: int,
    /// How far apart the old and the new data were at the match of the last block.
    pub lastoffset: int,
}

/// What one round of the generator gives: the block it writes, if any, and the state it
/// leaves.
pub struct Round {
    pub blocks: Seq<Block>,
    pub next: Anchor,
}

/// The state in which the generator starts.
pub open spec fn start_anchor() -> Anchor {
    Anchor { scan: 0, len: 0, pos: 0, lastscan: 0, lastpos: 0, lastoffset: 0 }
}

/// One round of the generator. The scan goes on behind the last match. If it stops at a
/// match of which not every byte is aligned with the last block, or at the end of the new
/// data, the block up to the cut in front of that match is written, unless it is empty, and
/// the next block starts at the cut.
pub open spec fn round(sa: Seq<i32>, old: Seq<u8>, new: Seq<u8>, a: Anchor) -> Round {
    let s = scan_on(sa, old, new, a.lastoffset, scan_start(a.scan + a.len, a.len, a.pos));
    if s.len != s.oldscore || s.scan == new.len() {
        let c = cut(old, new, a.lastscan, a.lastpos, s.scan, s.pos);
        let block = block_between(old, new, a.lastscan, a.lastpos, s.scan, s.pos);
        Round {
            blocks: if block.is_empty() {
                Seq::empty()
            } else {
                seq![block]
            },
            next: Anchor {
                scan: s.scan,
                len: s.len,
                pos: s.pos,
                lastscan: s.scan - c.lenb,
                lastpos: s.pos - c.lenb,
                lastoffset: s.pos - s.scan,
            },
        }
    } else {
        Round { blocks: Seq::empty(), next: Anchor { scan: s.scan, len: s.len, pos: s.pos, ..a } }
    }
}

/// A bound on the number of rounds that the generator still makes in state `a` with `n`
/// bytes of new data.
pub open spec fn rounds_left(n: int, a: Anchor) -> int {
    if a.scan >= n {
        0
    } else if a.scan + a.len >= n {
        1
    } else {
        n - a.scan - a.len + 1
    }
}

/// The blocks that the generator writes from state `a` on: round after round until the
/// scan has reached the end of the new data.
#[verifier::opaque]
pub open spec fn blocks_from(sa: Seq<i32>, old: Seq<u8>, new: Seq<u8>, a: Anchor) -> Seq<Block>
    decreases rounds_left(new.len() as int, a),
    when 0 <= a.len
    via blocks_from_terminates
{
    if a.scan >= new.len() {
        Seq::empty()
    } else {
        round(sa, old, new, a).blocks + blocks_from(sa, old, new, round(sa, old, new, a).next)
    }
}

/// A round takes the generator closer to the end of the new data.
pub proof fn lemma_round_progress(sa: Seq<i32>, old: Seq<u8>, new: Seq<u8>, a: Anchor)
    requires
        0 <= a.len,
        a.scan < new.len(),
    ensures
        0 <= round(sa, old, new, a).next.len,
        a.scan + a.len < round(sa, old, new, a).next.scan + round(sa, old, new, a).next.len,
        rounds_left(new.len() as int, round(sa, old, new, a).next) < rounds_left(
            new.len() as int,
            a,
        ),
{
    let start = a.scan + a.len;
    lemma_scan_on_forward(sa, old, new, a.lastoffset, scan_start(start, a.len, a.pos));
    if start < new.len() {
        lemma_scan_on_progress(sa, old, new, a.lastoffset, start, a.len, a.pos);
    }
}

#[via_fn]
proof fn blocks_from_terminates(sa: Seq<i32>, old: Seq<u8>, new: Seq<u8>, a: Anchor) {
    if a.scan < new.len() {
        lemma_round_progress(sa, old, new, a);
    }
}

/// The blocks from a state on are those of one round and those from the next state on.
pub proof fn lemma_blocks_from(sa: Seq<i32>, old: Seq<u8>, new: Seq<u8>, a: Anchor)
    requires
        0 <= a.len,
    ensures
        a.scan >= new.len() ==> blocks_from(sa, old, new, a) == Seq::<Block>::empty(),
        a.scan < new.len() ==> blocks_from(sa, old, new, a) == round(sa, old, new, a).blocks
            + blocks_from(sa, old, new, round(sa, old, new, a).next),
{
    reveal(blocks_from);
    if a.scan < new.len() {
        lemma_round_progress(sa, old, new, a);
    }
}

/// The array `sa` can serve the search in `old`: it has one entry more than the text it
/// indexes, which is a part of `old`, and every entry is a position in that text.
pub open spec fn is_index(sa: Seq<i32>, old: Seq<u8>) -> bool {
    1 <= sa.len() <= old.len() + 1 && positions_within(sa, sa.len() - 1)
}

/// The state is one that the generator can be in: the last block ended at or before the
/// scan, the last match lies inside the data, and the old data stands where the last block
/// left it. Once the scan is at the end, so is the last block.
pub open spec fn anchored(sa: Seq<i32>, old: Seq<u8>, new: Seq<u8>, a: Anchor) -> bool {
    &&& 0 <= a.lastscan <= a.scan <= new.len()
    &&& 0 <= a.len
    &&& a.scan < new.len() ==> a.scan + a.len <= new.len()
    &&& 0 <= a.pos < sa.len()
    &&& 0 <= a.lastpos <= old.len()
    &&& a.lastoffset == a.lastpos - a.lastscan
    &&& a.scan == new.len() ==> a.lastscan == new.len()
}

/// A round keeps the generator in a state that it can be in, and what it writes produces
/// the new data from the end of the last block up to the end of this one.
pub proof fn lemma_round(sa: Seq<i32>, old: Seq<u8>, new: Seq<u8>, a: Anchor)
    requires
        is_index(sa, old),
        old.len() <= i32::MAX,
        new.len() <= i32::MAX,
        anchored(sa, old, new, a),
        a.scan < new.len(),
    ensures
        ({
            let r = round(sa, old, new, a);
            &&& anchored(sa, old, new, r.next)
            &&& a.lastscan <= r.next.lastscan
            &&& replay(old, r.blocks, a.lastpos, old.len() as int) == Some(
                Replay {
                    cursor: r.next.lastpos,
                    output: new.subrange(a.lastscan, r.next.lastscan),
                },
            )
        }),
{
    let start = scan_start(a.scan + a.len, a.len, a.pos);
    let s = scan_on(sa, old, new, a.lastoffset, start);
    lemma_scan_on_bounds(sa, old, new, a.lastoffset, start);
    let r = round(sa, old, new, a);
    if s.len != s.oldscore || s.scan == new.len() {
        let block = block_between(old, new, a.lastscan, a.lastpos, s.scan, s.pos);
        lemma_cut_bounds(old, new, a.lastscan, a.lastpos, s.scan, s.pos);
        lemma_block_between(old, new, a.lastscan, a.lastpos, s.scan, s.pos);
        if block.is_empty() {
            assert(new.subrange(a.lastscan, r.next.lastscan) =~= Seq::<u8>::empty());
        } else {
            assert(r.blocks.skip(1) =~= Seq::<Block>::empty());
            assert(replay(old, r.blocks.skip(1), r.next.lastpos, old.len() as int) == Some(
                Replay { cursor: r.next.lastpos, output: Seq::empty() },
            ));
            assert(block.output(old, a.lastpos) + Seq::<u8>::empty() =~= new.subrange(
                a.lastscan,
                r.next.lastscan,
            ));
        }
    } else {
        assert(new.subrange(a.lastscan, r.next.lastscan) =~= Seq::<u8>::empty());
    }
}

/// With a suffix array of all the old data, every round that is to write a block writes
/// one: the block in front of a match that is not wholly aligned with the last block, or in
/// front of the end of the new data, is never empty.
pub proof fn lemma_round_writes(sa: Seq<i32>, old: Seq<u8>, new: Seq<u8>, a: Anchor)
    requires
        is_search_index(old, sa),
        old.len() <= i32::MAX,
        new.len() <= i32::MAX,
        anchored(sa, old, new, a),
        a.scan < new.len(),
    ensures
        ({
            let s = scan_on(sa, old, new, a.lastoffset, scan_start(a.scan + a.len, a.len, a.pos));
            s.len != s.oldscore || s.scan == new.len() ==> round(sa, old, new, a).blocks
                == seq![block_between(old, new, a.lastscan, a.lastpos, s.scan, s.pos)]
        }),
{
    let start = scan_start(a.scan + a.len, a.len, a.pos);
    let s = scan_on(sa, old, new, a.lastoffset, start);
    assert forall|i: int| 0 <= i < sa.len() implies 0 <= #[trigger] sa[i] <= sa.len() - 1 by {
        if i < sa.len() - 1 {
            assert(sa.drop_last()[i] == sa[i]);
        }
    }
    lemma_scan_on_bounds(sa, old, new, a.lastoffset, start);
    lemma_scan_on_aligned(sa, old, new, a.lastoffset, start);
    lemma_cut_bounds(old, new, a.lastscan, a.lastpos, s.scan, s.pos);
    lemma_block_between(old, new, a.lastscan, a.lastpos, s.scan, s.pos);
}

/// Blocks that can be replayed after a first one that can be applied can be replayed with
/// it.
pub proof fn lemma_replay_concat(
    old: Seq<u8>,
    first: Seq<Block>,
    rest: Seq<Block>,
    cursor: int,
    top: int,
)
    requires
        replay(old, first, cursor, top) is Some,
        replay(old, rest, replay(old, first, cursor, top)->0.cursor, top) is Some,
    ensures
        ({
            let a = replay(old, first, cursor, top)->0;
            let b = replay(old, rest, a.cursor, top)->0;
            replay(old, first + rest, cursor, top) == Some(
                Replay { cursor: b.cursor, output: a.output + b.output },
            )
        }),
    decreases first.len(),
{
    let a = replay(old, first, cursor, top)->0;
    let b = replay(old, rest, a.cursor, top)->0;
    if first.len() == 0 {
        assert(first + rest =~= rest);
        assert(a.output + b.output =~= b.output);
    } else {
        let next = cursor + first[0].diff.len() + first[0].seek;
        assert((first + rest)[0] == first[0]);
        assert((first + rest).skip(1) =~= first.skip(1) + rest);
        lemma_replay_concat(old, first.skip(1), rest, next, top);
        let tail = replay(old, first.skip(1), next, top)->0;
        assert(first[0].output(old, cursor) + (tail.output + b.output) =~= (first[0].output(
            old,
            cursor,
        ) + tail.output) + b.output);
    }
}

/// The blocks that the generator writes from a state on produce the rest of the new data.
pub proof fn lemma_blocks_from_give(sa: Seq<i32>, old: Seq<u8>, new: Seq<u8>, a: Anchor)
    requires
        is_index(sa, old),
        old.len() <= i32::MAX,
        new.len() <= i32::MAX,
        anchored(sa, old, new, a),
    ensures
        replay(old, blocks_from(sa, old, new, a), a.lastpos, old.len() as int) matches Some(r)
            && r.output == new.subrange(a.lastscan, new.len() as int),
    decreases rounds_left(new.len() as int, a),
{
    lemma_blocks_from(sa, old, new, a);
    if a.scan >= new.len() {
        assert(new.subrange(a.lastscan, new.len() as int) =~= Seq::<u8>::empty());
    } else {
        let r = round(sa, old, new, a);
        lemma_round(sa, old, new, a);
        lemma_round_progress(sa, old, new, a);
        lemma_blocks_from_give(sa, old, new, r.next);
        lemma_replay_concat(
            old,
            r.blocks,
            blocks_from(sa, old, new, r.next),
            a.lastpos,
            old.len() as int,
        );
        assert(new.subrange(a.lastscan, r.next.lastscan) + new.subrange(
            r.next.lastscan,
            new.len() as int,
        ) =~= new.subrange(a.lastscan, new.len() as int));
    }
}

/// The part of the old data that the suffix array is built of. The sorter takes less than
/// `i32::MAX` bytes: of old data of exactly that length the last byte stays out.
pub open spec fn indexed_text(old: Seq<u8>) -> Seq<u8> {
    if old.len() < i32::MAX {
        old
    } else {
        old.take(old.len() - 1)
    }
}

/// The array that the search works on: the suffix array of the indexed text, and a zero
/// behind it.
pub open spec fn search_index(old: Seq<u8>) -> Seq<i32> {
    suffix_array(indexed_text(old)).push(0)
}

/// The blocks of the patch that `generate` writes for `old` and `new`.
pub open spec fn delta_blocks(old: Seq<u8>, new: Seq<u8>) -> Seq<Block> {
    blocks_from(search_index(old), old, new, start_anchor())
}

/// The patch that `generate` writes for `old` and `new`.
pub open spec fn delta(old: Seq<u8>, new: Seq<u8>) -> Seq<u8> {
    patch_bytes(new.len() as u64, delta_blocks(old, new))
}

/// A patch for data that fits `generate` turns the old data into the new data, whatever
/// index the search works on.
pub proof fn lemma_blocks_make_patch(sa: Seq<i32>, old: Seq<u8>, new: Seq<u8>)
    requires
        is_index(sa, old),
        old.len() <= i32::MAX,
        new.len() <= i32::MAX,
    ensures
        blocks_give_within(old, new, blocks_from(sa, old, new, start_anchor()), 0),
        blocks_give(old, new, blocks_from(sa, old, new, start_anchor()), 0),
        is_patch(
            old,
            new,
            patch_bytes(new.len() as u64, blocks_from(sa, old, new, start_anchor())),
        ),
{
    let blocks = blocks_from(sa, old, new, start_anchor());
    lemma_blocks_from_give(sa, old, new, start_anchor());
    assert(new.subrange(0, new.len() as int) =~= new);
    lemma_replay_widen(old, blocks, 0, old.len() as int, u64::MAX as int);
    assert(blocks_give(old, new, blocks, 0));
}

/// Writes the patch for one part of the data. The progress of the work is reported
/// counted from `base`.
fn generate_part<F: FnMut(State)>(
    old_f: &[u8],
    new_f: &[u8],
    patch_f: &mut Vec<u8>,
    base: u64,
    progress: &mut F,
)
    requires
        old_f.len() <= i32::MAX,
        new_f.len() <= i32::MAX,
        base + new_f.len() <= u64::MAX,
        call_requires(*old(progress), (State::Sorting,)),
        takes_working(*old(progress), base as int, base + new_f.len()),
    ensures
        final(patch_f)@ == old(patch_f)@ + delta(old_f@, new_f@),
        still_takes(*old(progress), *final(progress)),
{
    progress(State::Sorting);
    write_header(patch_f, new_f.len() as u64);
    let indexed: usize = if old_f.len() < i32::MAX as usize {
        old_f.len()
    } else {
        old_f.len() - 1
    };
    let mut sorted = suffix_sort(&old_f[0..indexed]);
    let ghost suffixes = sorted@;
    sorted.push(0);
    let ghost sa = sorted@;
    proof {
        assert(old_f@.subrange(0, indexed as int) =~= indexed_text(old_f@));
        lemma_suffix_array_unique(indexed_text(old_f@), suffixes);
        assert(sa =~= search_index(old_f@));
    }
    let ghost all = blocks_from(sa, old_f@, new_f@, start_anchor());
    let ghost with_header = patch_f@;
    let ghost mut blocks = Seq::<Block>::empty();
    let n = new_f.len() as i64;
    let mut scan: i64 = 0;
    let mut len: i64 = 0;
    let mut pos: i64 = 0;
    let mut lastoffset: i64 = 0;
    let mut lastscan: i64 = 0;
    let mut lastpos: i64 = 0;
    assert(all =~= blocks + all);
    while scan < n
        invariant
            n == new_f.len() <= i32::MAX,
            old_f.len() <= i32::MAX,
            base + new_f.len() <= u64::MAX,
            sa == sorted@,
            is_index(sa, old_f@),
            takes_working(*progress, base as int, base + new_f.len()),
            still_takes(*old(progress), *progress),
            0 <= lastscan <= scan <= n,
            0 <= len,
            scan < n ==> scan + len <= n,
            0 <= pos < sorted.len(),
            0 <= lastpos <= old_f.len(),
            lastoffset == lastpos - lastscan,
            patch_f@ == with_header + blocks_bytes(blocks),
            all == blocks + blocks_from(
                sa,
                old_f@,
                new_f@,
                Anchor {
                    scan: scan as int,
                    len: len as int,
                    pos: pos as int,
                    lastscan: lastscan as int,
                    lastpos: lastpos as int,
                    lastoffset: lastoffset as int,
                },
            ),
        decreases
            rounds_left(
                n as int,
                Anchor {
                    scan: scan as int,
                    len: len as int,
                    pos: pos as int,
                    lastscan: lastscan as int,
                    lastpos: lastpos as int,
                    lastoffset: lastoffset as int,
                },
            ),
    {
        let ghost a = Anchor {
            scan: scan as int,
            len: len as int,
            pos: pos as int,
            lastscan: lastscan as int,
            lastpos: lastpos as int,
            lastoffset: lastoffset as int,
        };
        proof {
            lemma_blocks_from(sa, old_f@, new_f@, a);
            lemma_round_progress(sa, old_f@, new_f@, a);
        }
        let c = next_candidate(
            sorted.as_slice(),
            old_f,
            new_f,
            lastoffset,
            scan + len,
            len,
            pos,
            base,
            progress,
        );
        scan = c.scan;
        len = c.len;
        pos = c.pos;
        if len != c.oldscore || scan == n {
            let ghost block = block_between(
                old_f@,
                new_f@,
                lastscan as int,
                lastpos as int,
                scan as int,
                pos as int,
            );
            let (lenf, lenb) = write_block(old_f, new_f, patch_f, lastscan, lastpos, scan, pos);
            proof {
                lemma_cut_bounds(
                    old_f@,
                    new_f@,
                    lastscan as int,
                    lastpos as int,
                    scan as int,
                    pos as int,
                );
                if block.is_empty() {
                    assert(patch_f@ =~= with_header + blocks_bytes(blocks));
                } else {
                    lemma_blocks_bytes_push(blocks, block);
                    assert(patch_f@ =~= with_header + blocks_bytes(blocks.push(block)));
                    assert(blocks.push(block) =~= blocks + seq![block]);
                    blocks = blocks.push(block);
                }
            }
            lastscan = scan - lenb;
            lastpos = pos - lenb;
            lastoffset = pos - scan;
        }
        proof {
            let r = round(sa, old_f@, new_f@, a);
            let rest = blocks_from(sa, old_f@, new_f@, r.next);
            assert(all =~= blocks + rest);
        }
    }
    write_ending(patch_f);
    proof {
        lemma_blocks_from(
            sa,
            old_f@,
            new_f@,
            Anchor {
                scan: scan as int,
                len: len as int,
                pos: pos as int,
                lastscan: lastscan as int,
                lastpos: lastpos as int,
                lastoffset: lastoffset as int,
            },
        );
        assert(blocks =~= all);
        assert(patch_f@ =~= old(patch_f)@ + delta(old_f@, new_f@));
    }
}

/// Old data that fits `generate` has an index for the search: the suffix array of its
/// indexed part with a zero behind it.
pub proof fn lemma_search_index(old: Seq<u8>)
    requires
        old.len() <= i32::MAX,
    ensures
        is_search_index(indexed_text(old), search_index(old)),
        is_index(search_index(old), old),
{
    lemma_suffix_array_exists(indexed_text(old));
    assert(search_index(old).drop_last() =~= suffix_array(indexed_text(old)));
}

/// Round trip: the patch that `generate` writes for `old` and `new` gives `new` when it is
/// applied to `old`, and the applier stops at its end.
pub proof fn lemma_round_trip(old: Seq<u8>, new: Seq<u8>)
    requires
        old.len() <= i32::MAX,
        new.len() <= i32::MAX,
    ensures
        is_patch(old, new, delta(old, new)),
        apply_spec(old, delta(old, new)) == (Outcome {
            output: new,
            result: Ok(delta(old, new).len() as int),
        }),
        apply_chunked_spec(old, delta(old, new)) == apply_spec(old, delta(old, new)),
{
    lemma_search_index(old);
    lemma_blocks_make_patch(search_index(old), old, new);
    lemma_patch_applies(old, new, delta(old, new));
}

/// Identity: the patch from data to the same data gives the data back.
pub proof fn lemma_identity(data: Seq<u8>)
    requires
        data.len() <= i32::MAX,
    ensures
        apply_spec(data, delta(data, data)).output == data,
        apply_spec(data, delta(data, data)).result is Ok,
{
    lemma_round_trip(data, data);
}

/// Every patch starts with the magic bytes `DDELTA40`, followed by the length of the new
/// data with its most significant byte first.
pub proof fn lemma_delta_header(old: Seq<u8>, new: Seq<u8>)
    requires
        new.len() <= u64::MAX,
    ensures
        delta(old, new).len() >= 40,
        delta(old, new).subrange(0, 8) == DDELTA_MAGIC@,
        delta(old, new).subrange(8, 16) == be64(new.len() as int),
{
    lemma_header_bytes(new.len() as u64);
    lemma_entry_round_trip(EntryHeader { diff: 0, extra: 0, seek: 0 });
    let header = header_bytes(new.len() as u64);
    assert(delta(old, new).subrange(0, 8) =~= header.subrange(0, 8));
    assert(delta(old, new).subrange(8, 16) =~= header.subrange(8, 16));
}

/// The patch for empty new data is a header that announces no bytes, and the terminator.
pub proof fn lemma_delta_of_nothing(old: Seq<u8>)
    ensures
        delta(old, Seq::empty()) == header_bytes(0) + ending_bytes(),
{
    lemma_blocks_from(search_index(old), old, Seq::empty(), start_anchor());
    assert(blocks_bytes(Seq::<Block>::empty()) =~= Seq::<u8>::empty());
    assert(delta(old, Seq::empty()) =~= header_bytes(0) + ending_bytes());
}

/// Generates a patch that turns `old_f` into `new_f`, and appends it to `patch_f`. The
/// patch can be read by [`apply`](crate::apply), by [`apply_chunked`](crate::apply_chunked)
/// and by the ddelta tool.
///
/// `progress` is told what the generator is doing: `Sorting` when it builds the suffix
/// array, and then `Working` with the number of bytes of the new data that are done,
/// whenever that is a multiple of 100 000. It is called with no other state.
///
/// Fails with `InputTooLarge`, and writes nothing, if one of the two is longer than
/// `i32::MAX` bytes.
pub fn generate<F: FnMut(State)>(
    old_f: &[u8],
    new_f: &[u8],
    patch_f: &mut Vec<u8>,
    mut progress: F,
) -> (r: Result<(), Error>)
    requires
        call_requires(progress, (State::Sorting,)),
        takes_working(progress, 0, new_f.len() as int),
    ensures
        r is Ok <==> old_f.len() <= i32::MAX && new_f.len() <= i32::MAX,
        r matches Err(e) ==> e == Error::InputTooLarge && final(patch_f)@ == old(patch_f)@,
        r is Ok ==> {
            &&& final(patch_f)@ == old(patch_f)@ + delta(old_f@, new_f@)
            &&& is_patch(old_f@, new_f@, delta(old_f@, new_f@))
            &&& apply_spec(old_f@, delta(old_f@, new_f@)) == (Outcome {
                output: new_f@,
                result: Ok(delta(old_f@, new_f@).len() as int),
            })
        },
{
    if old_f.len() > i32::MAX as usize || new_f.len() > i32::MAX as usize {
        return Err(Error::InputTooLarge);
    }
    generate_part(old_f, new_f, patch_f, 0, &mut progress);
    proof {
        lemma_round_trip(old_f@, new_f@);
    }
    Ok(())
}

/// The chunk size that `generate_chunked` works with: the size asked for, but at least 1024
/// and at most `i32::MAX`, which it also is if no size was asked for.
pub open spec fn chunk_len(chunk_sizes: Option<usize>) -> int {
    match chunk_sizes {
        None => i32::MAX as int,
        Some(size) => if size < 1024 {
            1024
        } else if size > i32::MAX {
            i32::MAX as int
        } else {
            size as int
        },
    }
}

/// The chunk of the old data that goes with the chunk of the new data that starts at
/// `from`: the bytes at the same positions, as far as the old data has them.
pub open spec fn old_chunk(old: Seq<u8>, chunk: int, from: int) -> Seq<u8> {
    old.subrange(min(from, old.len() as int), min(from + chunk, old.len() as int))
}

/// The chunk of the new data that starts at `from`.
pub open spec fn new_chunk(new: Seq<u8>, chunk: int, from: int) -> Seq<u8> {
    new.subrange(from, min(from + chunk, new.len() as int))
}

/// The patches for the chunks of the new data from `from` on, one after another.
pub open spec fn chunked_from(old: Seq<u8>, new: Seq<u8>, chunk: int, from: int) -> Seq<u8>
    decreases new.len() - from,
    when 0 < chunk
{
    if from >= new.len() {
        Seq::empty()
    } else {
        delta(old_chunk(old, chunk, from), new_chunk(new, chunk, from)) + chunked_from(
            old,
            new,
            chunk,
            min(from + chunk, new.len() as int),
        )
    }
}

/// The chunked patch that `generate_chunked` writes for `old` and `new` with chunks of
/// `chunk` bytes: one patch for every chunk of the new data, and for empty new data the
/// patch that produces nothing.
pub open spec fn chunked_delta(old: Seq<u8>, new: Seq<u8>, chunk: int) -> Seq<u8> {
    if new.len() == 0 {
        header_bytes(0) + ending_bytes()
    } else {
        chunked_from(old, new, chunk, 0)
    }
}

/// Data that fits into one chunk gives the same patch chunked and not chunked.
pub proof fn lemma_chunked_is_delta(old: Seq<u8>, new: Seq<u8>, chunk: int)
    requires
        0 < chunk,
        old.len() <= chunk,
        new.len() <= chunk,
    ensures
        chunked_delta(old, new, chunk) == delta(old, new),
{
    if new.len() == 0 {
        assert(new =~= Seq::<u8>::empty());
        lemma_delta_of_nothing(old);
    } else {
        assert(old_chunk(old, chunk, 0) =~= old);
        assert(new_chunk(new, chunk, 0) =~= new);
        assert(chunked_from(old, new, chunk, new.len() as int) =~= Seq::<u8>::empty());
        assert(chunked_from(old, new, chunk, 0) =~= delta(old, new));
    }
}

/// Data that fits into one chunk round-trips chunked as it does not chunked.
pub proof fn lemma_chunked_small(old: Seq<u8>, new: Seq<u8>, chunk: int)
    requires
        0 < chunk <= i32::MAX,
        old.len() <= chunk,
        new.len() <= chunk,
    ensures
        chunked_delta(old, new, chunk) == delta(old, new),
        apply_chunked_spec(old, chunked_delta(old, new, chunk)) == apply_spec(
            old,
            delta(old, new),
        ),
        apply_spec(old, delta(old, new)).output == new,
        apply_spec(old, delta(old, new)).result is Ok,
{
    lemma_chunked_is_delta(old, new, chunk);
    lemma_round_trip(old, new);
}

/// The patch for one chunk, wherever it stands in a chunked patch, gives the chunk of the
/// new data when the old data is read from where the chunk begins.
proof fn lemma_apply_chunk(
    old: Seq<u8>,
    new: Seq<u8>,
    chunk: int,
    from: int,
    patch: Seq<u8>,
    pos: int,
)
    requires
        0 < chunk <= i32::MAX,
        old.len() <= u64::MAX,
        new.len() <= u64::MAX,
        0 <= from < new.len(),
        0 <= pos,
        pos + delta(old_chunk(old, chunk, from), new_chunk(new, chunk, from)).len()
            <= patch.len(),
        patch.subrange(
            pos,
            pos + delta(old_chunk(old, chunk, from), new_chunk(new, chunk, from)).len(),
        ) == delta(old_chunk(old, chunk, from), new_chunk(new, chunk, from)),
    ensures
        apply_from(old, patch, pos, from) == (Outcome {
            output: new_chunk(new, chunk, from),
            result: Ok(
                pos + delta(old_chunk(old, chunk, from), new_chunk(new, chunk, from)).len(),
            ),
        }),
        be64_value(patch.subrange(pos + 8, pos + 16)) == new_chunk(
            new,
            chunk,
            from,
        ).len(),
{
    let old_part = old_chunk(old, chunk, from);
    let new_part = new_chunk(new, chunk, from);
    let blocks = delta_blocks(old_part, new_part);
    let part = delta(old_part, new_part);
    lemma_search_index(old_part);
    lemma_blocks_make_patch(search_index(old_part), old_part, new_part);
    lemma_replay_in_part(old, old_part, from, blocks, 0);
    lemma_apply_patch_bytes(old, new_part, blocks, patch, pos, from);
    lemma_header_bytes(new_part.len() as u64);
    assert(patch.subrange(pos + 8, pos + 16) =~= part.subrange(8, 16));
    assert(part.subrange(8, 16) =~= header_bytes(new_part.len() as u64).subrange(8, 16));
}

proof fn lemma_apply_chunked_from(
    old: Seq<u8>,
    new: Seq<u8>,
    chunk: int,
    from: int,
    patch: Seq<u8>,
    pos: int,
)
    requires
        0 < chunk <= i32::MAX,
        old.len() <= u64::MAX,
        new.len() <= u64::MAX,
        0 <= from <= new.len(),
        0 <= pos <= patch.len(),
        patch.subrange(pos, patch.len() as int) == chunked_from(old, new, chunk, from),
    ensures
        apply_all(old, patch, pos, from) == (Outcome {
            output: new.subrange(from, new.len() as int),
            result: Ok(patch.len() as int),
        }),
    decreases new.len() - from,
{
    if from >= new.len() {
        assert(new.subrange(from, new.len() as int) =~= Seq::<u8>::empty());
    } else {
        let to = min(from + chunk, new.len() as int);
        let new_part = new_chunk(new, chunk, from);
        let part = delta(old_chunk(old, chunk, from), new_part);
        let rest = chunked_from(old, new, chunk, to);
        let end = pos + part.len();
        assert(chunked_from(old, new, chunk, from) == part + rest);
        assert(patch.subrange(pos, patch.len() as int).len() == part.len() + rest.len());
        assert(patch.subrange(pos, end) =~= part) by {
            assert(patch.subrange(pos, patch.len() as int).subrange(0, part.len() as int)
                =~= patch.subrange(pos, end));
        }
        assert(patch.subrange(end, patch.len() as int) =~= rest) by {
            assert(patch.subrange(pos, patch.len() as int).subrange(
                part.len() as int,
                (part.len() + rest.len()) as int,
            ) =~= patch.subrange(end, patch.len() as int));
        }
        lemma_apply_chunk(old, new, chunk, from, patch, pos);
        lemma_apply_chunked_from(old, new, chunk, to, patch, end);
        lemma_delta_header(old_chunk(old, chunk, from), new_part);
        assert(new_part + new.subrange(to, new.len() as int) =~= new.subrange(
            from,
            new.len() as int,
        ));
    }
}

/// Chunked round trip: the chunked patch that `generate_chunked` writes for `old` and
/// `new` gives `new` when it is applied to `old` as a chunked patch, whatever the lengths
/// of the two.
pub proof fn lemma_chunked_round_trip(old: Seq<u8>, new: Seq<u8>, chunk: int)
    requires
        0 < chunk <= i32::MAX,
        old.len() <= u64::MAX,
        new.len() <= u64::MAX,
    ensures
        apply_chunked_spec(old, chunked_delta(old, new, chunk)) == (Outcome {
            output: new,
            result: Ok(chunked_delta(old, new, chunk).len() as int),
        }),
{
    let patch = chunked_delta(old, new, chunk);
    if new.len() == 0 {
        let blocks = Seq::<Block>::empty();
        assert(new =~= Seq::<u8>::empty());
        assert(patch =~= patch_bytes(0, blocks));
        assert(blocks_give(old, new, blocks, 0));
        lemma_patch_applies(old, new, patch);
    } else {
        assert(patch.subrange(0, patch.len() as int) =~= patch);
        lemma_apply_chunked_from(old, new, chunk, 0, patch, 0);
        assert(new.subrange(0, new.len() as int) =~= new);
    }
}

/// Generates a patch that turns `old_f` into `new_f`, whatever their lengths, and appends
/// it to `patch_f`. The data is taken in chunks of `chunk_sizes` bytes, and the patch holds
/// one patch for each chunk. It can be read by [`apply_chunked`](crate::apply_chunked), and
/// if the data fits into one chunk also by [`apply`](crate::apply) and the ddelta tool.
///
/// `progress` is told what the generator is doing: `Reading` when it turns to the next
/// chunk, `Sorting` when it builds the suffix array of a chunk, and `Working` with the
/// number of bytes of the new data that are done.
pub fn generate_chunked<F: FnMut(State)>(
    old_f: &[u8],
    new_f: &[u8],
    patch_f: &mut Vec<u8>,
    chunk_sizes: Option<usize>,
    mut progress: F,
)
    requires
        call_requires(progress, (State::Reading,)),
        call_requires(progress, (State::Sorting,)),
        forall|done: u64|
            done < new_f.len() ==> #[trigger] call_requires(progress, (State::Working(done),)),
    ensures
        final(patch_f)@ == old(patch_f)@ + chunked_delta(old_f@, new_f@, chunk_len(chunk_sizes)),
        apply_chunked_spec(old_f@, chunked_delta(old_f@, new_f@, chunk_len(chunk_sizes)))
            == (Outcome {
            output: new_f@,
            result: Ok(chunked_delta(old_f@, new_f@, chunk_len(chunk_sizes)).len() as int),
        }),
{
    let limit: usize = i32::MAX as usize;
    let chunk: usize = match chunk_sizes {
        None => limit,
        Some(size) => if size < 1024 {
            1024
        } else if size > limit {
            limit
        } else {
            size
        },
    };
    let ghost start = patch_f@;
    let mut bytes_completed: usize = 0;
    loop
        invariant
            start == old(patch_f)@,
            chunk == chunk_len(chunk_sizes),
            0 < chunk <= i32::MAX,
            bytes_completed <= new_f.len(),
            call_requires(progress, (State::Reading,)),
            call_requires(progress, (State::Sorting,)),
            forall|done: u64|
                done < new_f.len() ==> #[trigger] call_requires(
                    progress,
                    (State::Working(done),),
                ),
            bytes_completed == 0 ==> patch_f@ == start,
            new_f.len() > 0 ==> start + chunked_from(old_f@, new_f@, chunk as int, 0) == patch_f@
                + chunked_from(old_f@, new_f@, chunk as int, bytes_completed as int),
        decreases new_f.len() - bytes_completed,
    {
        progress(State::Reading);
        let new_end: usize = if new_f.len() - bytes_completed < chunk {
            new_f.len()
        } else {
            bytes_completed + chunk
        };
        if new_end == bytes_completed {
            if bytes_completed == 0 {
                write_header(patch_f, 0);
                write_ending(patch_f);
                assert(patch_f@ =~= start + (header_bytes(0) + ending_bytes()));
            } else {
                assert(patch_f@ + Seq::<u8>::empty() =~= patch_f@);
            }
            proof {
                assert(old_f@.len() == old_f.len() && new_f@.len() == new_f.len());
                lemma_chunked_round_trip(old_f@, new_f@, chunk as int);
            }
            return;
        }
        let old_start: usize = if bytes_completed < old_f.len() {
            bytes_completed
        } else {
            old_f.len()
        };
        let old_end: usize = if old_f.len() - old_start < chunk {
            old_f.len()
        } else {
            old_start + chunk
        };
        let ghost before = patch_f@;
        generate_part(
            &old_f[old_start..old_end],
            &new_f[bytes_completed..new_end],
            patch_f,
            bytes_completed as u64,
            &mut progress,
        );
        proof {
            let part = delta(
                old_chunk(old_f@, chunk as int, bytes_completed as int),
                new_chunk(new_f@, chunk as int, bytes_completed as int),
            );
            let rest = chunked_from(old_f@, new_f@, chunk as int, new_end as int);
            assert(patch_f@ == before + part);
            assert(start + chunked_from(old_f@, new_f@, chunk as int, 0) =~= patch_f@ + rest);
        }
        bytes_completed = new_end;
    }
}

} // verus!
