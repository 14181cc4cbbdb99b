//! A patch seen as a sequence of blocks, and what applying the blocks one after another
//! gives. The generator is proved against this view; the lemmas here carry the result over
//! to the bytes that the applier reads.

use vstd::prelude::*;
use crate::Error;
use crate::format::{
    be64, be64_value, ending_bytes, header_bytes, lemma_be64_value_of_be64,
    lemma_entry_round_trip, EntryHeader, DDELTA_MAGIC,
};
use crate::patch::{
    apply_all, apply_chunked_spec, apply_entries, apply_from, apply_spec, diff_phase,
    extra_phase, lemma_apply_entries_step, patched, Outcome, Phase,
};

verus! {

/// A control entry together with the bytes that follow it.
pub struct Block {
    /// The diff bytes.
    pub diff: Seq<u8>,
    /// The literal bytes.
    pub extra: Seq<u8>,
    /// How far to move in the old data afterwards.
    pub seek: int,
}

impl Block {
    /// The lengths and the seek fit the fields of an entry.
    pub open spec fn fits(self) -> bool {
        &&& self.diff.len() <= u64::MAX
        &&& self.extra.len() <= u64::MAX
        &&& i64::MIN <= self.seek <= i64::MAX
    }

    /// The control entry of this block.
    pub open spec fn header(self) -> EntryHeader {
        EntryHeader {
            diff: self.diff.len() as u64,
            extra: self.extra.len() as u64,
            seek: self.seek as i64,
        }
    }

    /// The block on the wire: its entry, its diff bytes, its literal bytes.
    pub open spec fn bytes(self) -> Seq<u8> {
        self.header().bytes() + self.diff + self.extra
    }

    /// The block does nothing: it holds no bytes and does not move. Its entry would read
    /// as the end of the patch.
    pub open spec fn is_empty(self) -> bool {
        self.diff.len() == 0 && self.extra.len() == 0 && self.seek == 0
    }

    /// The block can be applied when the old data is at `cursor`: the old data holds the
    /// bytes that the diff bytes are added to, and the position after the seek lies between
    /// the start of the old data and `top`.
    pub open spec fn applies(self, old: Seq<u8>, cursor: int, top: int) -> bool {
        &&& self.fits()
        &&& !self.is_empty()
        &&& 0 <= cursor
        &&& self.diff.len() > 0 ==> cursor + self.diff.len() <= old.len()
        &&& 0 <= cursor + self.diff.len() + self.seek <= top
    }

    /// The new data that the block produces when the old data is at `cursor`.
    pub open spec fn output(self, old: Seq<u8>, cursor: int) -> Seq<u8> {
        patched(old, cursor, self.diff) + self.extra
    }
}

/// The bytes of the blocks, one after another.
pub open spec fn blocks_bytes(blocks: Seq<Block>) -> Seq<u8>
    decreases blocks.len(),
{
    if blocks.len() == 0 {
        Seq::empty()
    } else {
        blocks[0].bytes() + blocks_bytes(blocks.skip(1))
    }
}

/// A whole patch: the header that announces `size` bytes, the blocks, the terminator.
pub open spec fn patch_bytes(size: u64, blocks: Seq<Block>) -> Seq<u8> {
    header_bytes(size) + blocks_bytes(blocks) + ending_bytes()
}

/// Where the old data stands after some blocks, and the new data they produced.
pub struct Replay {
    pub cursor: int,
    pub output: Seq<u8>,
}

/// Applies the blocks one after another, starting with the old data at `cursor`. There is
/// a result if every block can be applied where it stands, no position exceeding `top`.
pub open spec fn replay(old: Seq<u8>, blocks: Seq<Block>, cursor: int, top: int) -> Option<Replay>
    decreases blocks.len(),
{
    if blocks.len() == 0 {
        Some(Replay { cursor, output: Seq::empty() })
    } else if !blocks[0].applies(old, cursor, top) {
        None
    } else {
        match replay(
            old,
            blocks.skip(1),
            cursor + blocks[0].diff.len() + blocks[0].seek,
            top,
        ) {
            None => None,
            Some(rest) => Some(
                Replay { cursor: rest.cursor, output: blocks[0].output(old, cursor) + rest.output },
            ),
        }
    }
}

/// The blocks produce `new` from `old`, read from `cursor` on.
pub open spec fn blocks_give(old: Seq<u8>, new: Seq<u8>, blocks: Seq<Block>, cursor: int) -> bool {
    replay(old, blocks, cursor, u64::MAX as int) matches Some(r) && r.output == new
}

/// The blocks produce `new` from `old`, read from `cursor` on, and no seek leads behind the
/// end of `old`.
pub open spec fn blocks_give_within(
    old: Seq<u8>,
    new: Seq<u8>,
    blocks: Seq<Block>,
    cursor: int,
) -> bool {
    replay(old, blocks, cursor, old.len() as int) matches Some(r) && r.output == new
}

/// `patch` is a patch that turns `old` into `new`: a header that announces the length of
/// `new`, blocks that produce `new` from `old`, and the terminator.
pub open spec fn is_patch(old: Seq<u8>, new: Seq<u8>, patch: Seq<u8>) -> bool {
    exists|blocks: Seq<Block>|
        {
            &&& new.len() <= u64::MAX
            &&& patch == patch_bytes(new.len() as u64, blocks)
            &&& #[trigger] blocks_give(old, new, blocks, 0)
        }
}

/// One more block at the end adds its bytes at the end.
pub proof fn lemma_blocks_bytes_push(blocks: Seq<Block>, block: Block)
    ensures
        blocks_bytes(blocks.push(block)) == blocks_bytes(blocks) + block.bytes(),
    decreases blocks.len(),
{
    let more = blocks.push(block);
    if blocks.len() == 0 {
        assert(more.skip(1) =~= Seq::<Block>::empty());
        assert(blocks_bytes(more.skip(1)) =~= Seq::<u8>::empty());
        assert(blocks_bytes(more) =~= blocks_bytes(blocks) + block.bytes());
    } else {
        assert(more.skip(1) =~= blocks.skip(1).push(block));
        lemma_blocks_bytes_push(blocks.skip(1), block);
        assert(blocks_bytes(more) =~= blocks_bytes(blocks) + block.bytes());
    }
}

/// A replay that stays below `top` stays below every larger bound.
pub proof fn lemma_replay_widen(old: Seq<u8>, blocks: Seq<Block>, cursor: int, top: int, wider: int)
    requires
        replay(old, blocks, cursor, top) is Some,
        top <= wider,
    ensures
        replay(old, blocks, cursor, wider) == replay(old, blocks, cursor, top),
    decreases blocks.len(),
{
    if blocks.len() > 0 {
        lemma_replay_widen(
            old,
            blocks.skip(1),
            cursor + blocks[0].diff.len() + blocks[0].seek,
            top,
            wider,
        );
    }
}

/// Blocks that can be replayed on a part of the old data can be replayed on all of it from
/// where the part begins, and produce the same. If the part is empty they can be replayed
/// from anywhere.
pub proof fn lemma_replay_in_part(
    old: Seq<u8>,
    part: Seq<u8>,
    base: int,
    blocks: Seq<Block>,
    cursor: int,
)
    requires
        replay(part, blocks, cursor, part.len() as int) is Some,
        0 <= base,
        base + part.len() <= u64::MAX,
        part.len() > 0 ==> base + part.len() <= old.len() && old.subrange(
            base,
            base + part.len(),
        ) == part,
    ensures
        ({
            let r = replay(part, blocks, cursor, part.len() as int)->0;
            replay(old, blocks, base + cursor, u64::MAX as int) == Some(
                Replay { cursor: base + r.cursor, output: r.output },
            )
        }),
    decreases blocks.len(),
{
    if blocks.len() > 0 {
        let block = blocks[0];
        let next = cursor + block.diff.len() + block.seek;
        lemma_replay_in_part(old, part, base, blocks.skip(1), next);
        assert(patched(old, base + cursor, block.diff) =~= patched(part, cursor, block.diff)) by {
            assert forall|i: int| 0 <= i < block.diff.len() implies #[trigger] patched(
                old,
                base + cursor,
                block.diff,
            )[i] == patched(part, cursor, block.diff)[i] by {
                assert(old.subrange(base, base + part.len())[cursor + i] == old[base + cursor + i]);
            }
        }
    }
}

/// The applier, reading the bytes of a block that can be applied, produces what the block
/// produces and goes on behind the block.
pub proof fn lemma_apply_block(
    old: Seq<u8>,
    patch: Seq<u8>,
    pos: int,
    cursor: int,
    written: int,
    size: int,
    block: Block,
)
    requires
        0 <= pos,
        pos + block.bytes().len() <= patch.len(),
        patch.subrange(pos, pos + block.bytes().len()) == block.bytes(),
        block.applies(old, cursor, u64::MAX as int),
    ensures
        ({
            let rest = apply_entries(
                old,
                patch,
                pos + block.bytes().len(),
                cursor + block.diff.len() + block.seek,
                written + block.output(old, cursor).len(),
                size,
            );
            apply_entries(old, patch, pos, cursor, written, size) == Outcome {
                output: block.output(old, cursor) + rest.output,
                result: rest.result,
            }
        }),
{
    let entry = block.header();
    let bytes = block.bytes();
    let d = block.diff.len() as int;
    let x = block.extra.len() as int;
    lemma_entry_round_trip(entry);
    assert(EntryHeader::parse(patch.subrange(pos, pos + 24)) == entry) by {
        assert(patch.subrange(pos, pos + 24) =~= bytes.subrange(0, 24));
        assert(bytes.subrange(0, 24) =~= entry.bytes());
    }
    assert(patch.subrange(pos + 24, pos + 24 + d) == block.diff) by {
        assert(patch.subrange(pos + 24, pos + 24 + d) =~= bytes.subrange(24, 24 + d));
        assert(bytes.subrange(24, 24 + d) =~= block.diff);
    }
    assert(patch.subrange(pos + 24 + d, pos + 24 + d + x) == block.extra) by {
        assert(patch.subrange(pos + 24 + d, pos + 24 + d + x) =~= bytes.subrange(
            24 + d,
            24 + d + x,
        ));
        assert(bytes.subrange(24 + d, 24 + d + x) =~= block.extra);
    }
    assert(diff_phase(old, patch, pos + 24, cursor, d) == Phase {
        output: patched(old, cursor, block.diff),
        error: None,
    }) by {
        reveal(diff_phase);
    }
    assert(extra_phase(patch, pos + 24 + d, x) == Phase { output: block.extra, error: None })
        by {
        reveal(extra_phase);
    }
    lemma_apply_entries_step(old, patch, pos, cursor, written, size);
}

/// The applier, reading the bytes of blocks that can be replayed, produces what the replay
/// produces and goes on with what follows the blocks.
pub proof fn lemma_apply_blocks(
    old: Seq<u8>,
    patch: Seq<u8>,
    pos: int,
    blocks: Seq<Block>,
    cursor: int,
    written: int,
    size: int,
)
    requires
        0 <= pos,
        pos + blocks_bytes(blocks).len() <= patch.len(),
        patch.subrange(pos, pos + blocks_bytes(blocks).len()) == blocks_bytes(blocks),
        replay(old, blocks, cursor, u64::MAX as int) is Some,
    ensures
        ({
            let done = replay(old, blocks, cursor, u64::MAX as int)->0;
            let rest = apply_entries(
                old,
                patch,
                pos + blocks_bytes(blocks).len(),
                done.cursor,
                written + done.output.len(),
                size,
            );
            apply_entries(old, patch, pos, cursor, written, size) == Outcome {
                output: done.output + rest.output,
                result: rest.result,
            }
        }),
    decreases blocks.len(),
{
    let done = replay(old, blocks, cursor, u64::MAX as int)->0;
    let all = blocks_bytes(blocks);
    if blocks.len() == 0 {
        let rest = apply_entries(old, patch, pos, cursor, written, size);
        assert(done.output + rest.output =~= rest.output);
    } else {
        let block = blocks[0];
        let tail = blocks.skip(1);
        let next = cursor + block.diff.len() + block.seek;
        let here = block.bytes().len() as int;
        let more = blocks_bytes(tail).len() as int;
        let tail_done = replay(old, tail, next, u64::MAX as int)->0;
        assert(all == block.bytes() + blocks_bytes(tail));
        assert(patch.subrange(pos, pos + here) =~= all.subrange(0, here));
        assert(all.subrange(0, here) =~= block.bytes());
        assert(patch.subrange(pos + here, pos + here + more) =~= all.subrange(here, here + more));
        assert(all.subrange(here, here + more) =~= blocks_bytes(tail));
        let step = apply_entries(
            old,
            patch,
            pos + here,
            next,
            written + block.output(old, cursor).len(),
            size,
        );
        let rest = apply_entries(
            old,
            patch,
            pos + all.len(),
            done.cursor,
            written + done.output.len(),
            size,
        );
        assert(apply_entries(old, patch, pos, cursor, written, size) == Outcome {
            output: block.output(old, cursor) + step.output,
            result: step.result,
        }) by {
            lemma_apply_block(old, patch, pos, cursor, written, size, block);
        }
        assert(step == Outcome { output: tail_done.output + rest.output, result: rest.result })
            by {
            lemma_apply_blocks(
                old,
                patch,
                pos + here,
                tail,
                next,
                written + block.output(old, cursor).len(),
                size,
            );
            assert(done.output == block.output(old, cursor) + tail_done.output);
        }
        assert(done.output == block.output(old, cursor) + tail_done.output);
        assert(done.output + rest.output =~= block.output(old, cursor) + (tail_done.output
            + rest.output));
    }
}

/// The applier, at the terminator with as many bytes produced as announced, stops behind it.
pub proof fn lemma_apply_ending(old: Seq<u8>, patch: Seq<u8>, pos: int, cursor: int, size: int)
    requires
        0 <= pos,
        pos + 24 <= patch.len(),
        patch.subrange(pos, pos + 24) == ending_bytes(),
    ensures
        apply_entries(old, patch, pos, cursor, size, size) == (Outcome {
            output: Seq::empty(),
            result: Ok(pos + 24),
        }),
{
    lemma_entry_round_trip(EntryHeader { diff: 0, extra: 0, seek: 0 });
    reveal(apply_entries);
}

/// Applying a patch built from blocks that can be replayed gives what the replay gives.
/// This holds wherever the patch stands among other bytes.
pub proof fn lemma_apply_patch_bytes(
    old: Seq<u8>,
    new: Seq<u8>,
    blocks: Seq<Block>,
    patch: Seq<u8>,
    pos: int,
    cursor: int,
)
    requires
        new.len() <= u64::MAX,
        blocks_give(old, new, blocks, cursor),
        0 <= pos,
        pos + patch_bytes(new.len() as u64, blocks).len() <= patch.len(),
        patch.subrange(pos, pos + patch_bytes(new.len() as u64, blocks).len()) == patch_bytes(
            new.len() as u64,
            blocks,
        ),
    ensures
        apply_from(old, patch, pos, cursor) == (Outcome {
            output: new,
            result: Ok(pos + patch_bytes(new.len() as u64, blocks).len()),
        }),
{
    let whole = patch_bytes(new.len() as u64, blocks);
    let body = blocks_bytes(blocks);
    let b = body.len() as int;
    lemma_be64_value_of_be64(new.len() as int);
    lemma_entry_round_trip(EntryHeader { diff: 0, extra: 0, seek: 0 });
    assert(patch.subrange(pos, pos + 8) =~= whole.subrange(0, 8));
    assert(whole.subrange(0, 8) =~= DDELTA_MAGIC@);
    assert(patch.subrange(pos + 8, pos + 16) =~= whole.subrange(8, 16));
    assert(whole.subrange(8, 16) =~= be64(new.len() as int));
    assert(patch.subrange(pos + 16, pos + 16 + b) =~= whole.subrange(16, 16 + b));
    assert(whole.subrange(16, 16 + b) =~= body);
    assert(patch.subrange(pos + 16 + b, pos + 16 + b + 24) =~= whole.subrange(16 + b, 16 + b + 24));
    assert(whole.subrange(16 + b, 16 + b + 24) =~= ending_bytes());
    let done = replay(old, blocks, cursor, u64::MAX as int)->0;
    lemma_apply_blocks(old, patch, pos + 16, blocks, cursor, 0, new.len() as int);
    lemma_apply_ending(old, patch, pos + 16 + b, done.cursor, new.len() as int);
    assert(new + Seq::<u8>::empty() =~= new);
}

/// A patch that turns `old` into `new` can be applied to `old`, alone or as the only one of
/// a chunked patch, and gives `new`.
pub proof fn lemma_patch_applies(old: Seq<u8>, new: Seq<u8>, patch: Seq<u8>)
    requires
        is_patch(old, new, patch),
    ensures
        apply_spec(old, patch) == (Outcome { output: new, result: Ok(patch.len() as int) }),
        apply_chunked_spec(old, patch) == (Outcome { output: new, result: Ok(patch.len() as int) }),
{
    let blocks = choose|blocks: Seq<Block>|
        {
            &&& new.len() <= u64::MAX
            &&& patch == patch_bytes(new.len() as u64, blocks)
            &&& #[trigger] blocks_give(old, new, blocks, 0)
        };
    assert(patch.subrange(0, patch.len() as int) =~= patch);
    lemma_apply_patch_bytes(old, new, blocks, patch, 0, 0);
    let end = patch.len() as int;
    assert(apply_all(old, patch, end, be64_value(patch.subrange(8, 16))) == Outcome {
        output: Seq::empty(),
        result: Ok(end),
    });
    assert(new + Seq::<u8>::empty() =~= new);
}

} // verus!
