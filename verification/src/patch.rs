//! Applying a patch: the old data and the patch give the new data back.

use vstd::math::min;
use vstd::prelude::*;
use crate::format::{
    be64_value, is_magic, read_entry, read_header, EntryHeader, PatchHeader, DDELTA_MAGIC,
    ENTRY_LEN, HEADER_LEN,
};
use crate::Error;

verus! {

/// Diff and literal bytes are handled in blocks of this many bytes. A block is produced
/// whole or not at all.
pub const BLOCK_SIZE: u64 = 32768;

/// The sum of two bytes modulo 256.
pub open spec fn wrapping_sum(a: u8, b: u8) -> u8 {
    if a + b > 255 {
        (a + b - 256) as u8
    } else {
        (a + b) as u8
    }
}

/// The bytes that a run of diff bytes produces when the old data is read from `cursor` on.
pub open spec fn patched(old: Seq<u8>, cursor: int, diff: Seq<u8>) -> Seq<u8> {
    Seq::new(diff.len(), |i: int| wrapping_sum(old[cursor + i], diff[i]))
}

/// What one phase of an entry gives: the bytes it produced, and the error that stopped it.
pub struct Phase {
    pub output: Seq<u8>,
    pub error: Option<Error>,
}

/// The diff phase of an entry whose `len` diff bytes start at `pos` in the patch, with the
/// old data read from `cursor` on. It fails if the patch or the old data ends before `len`
/// bytes were read: `PatchTruncated` if the block that comes next is not all in the patch,
/// else `PatchCorrupt`. The blocks before that one were produced.
#[verifier::opaque]
pub open spec fn diff_phase(old: Seq<u8>, patch: Seq<u8>, pos: int, cursor: int, len: int) -> Phase {
    let in_patch = patch.len() - pos;
    let in_old = if cursor <= old.len() {
        old.len() - cursor
    } else {
        0
    };
    let ready = min(len, min(in_patch, in_old));
    if ready == len {
        Phase { output: patched(old, cursor, patch.subrange(pos, pos + len)), error: None }
    } else {
        let done = ready - ready % (BLOCK_SIZE as int);
        let block = min(BLOCK_SIZE as int, len - done);
        Phase {
            output: patched(old, cursor, patch.subrange(pos, pos + done)),
            error: Some(
                if done + block > in_patch {
                    Error::PatchTruncated
                } else {
                    Error::PatchCorrupt
                },
            ),
        }
    }
}

/// The literal phase of an entry whose `len` literal bytes start at `pos` in the patch. It
/// fails with `PatchTruncated` if the patch ends before that; the blocks that are whole
/// were produced.
#[verifier::opaque]
pub open spec fn extra_phase(patch: Seq<u8>, pos: int, len: int) -> Phase {
    let in_patch = patch.len() - pos;
    if len <= in_patch {
        Phase { output: patch.subrange(pos, pos + len), error: None }
    } else {
        let done = in_patch - in_patch % (BLOCK_SIZE as int);
        Phase { output: patch.subrange(pos, pos + done), error: Some(Error::PatchTruncated) }
    }
}

/// A phase that succeeds produced as many bytes as it was asked for, and found them in the
/// patch and in the old data.
pub proof fn lemma_phase_ok(old: Seq<u8>, patch: Seq<u8>, pos: int, cursor: int, len: int)
    requires
        0 <= len,
        0 <= pos,
        0 <= cursor,
    ensures
        diff_phase(old, patch, pos, cursor, len).error is None ==> {
            &&& diff_phase(old, patch, pos, cursor, len).output.len() == len
            &&& pos + len <= patch.len()
            &&& len > 0 ==> cursor + len <= old.len()
        },
        extra_phase(patch, pos, len).error is None ==> {
            &&& extra_phase(patch, pos, len).output.len() == len
            &&& pos + len <= patch.len()
        },
{
    reveal(diff_phase);
    reveal(extra_phase);
}

/// What applying a patch gives: the bytes produced, up to the point of failure if there was
/// one, and either the position in the patch behind what was read or the error.
pub struct Outcome {
    pub output: Seq<u8>,
    pub result: Result<int, Error>,
}

/// Applies the entries that start at `pos` in the patch, up to the terminator. The old data
/// is read from `cursor` on, `written` bytes were produced by earlier entries, and `size`
/// bytes are to be produced in all.
#[verifier::opaque]
pub open spec fn apply_entries(
    old: Seq<u8>,
    patch: Seq<u8>,
    pos: int,
    cursor: int,
    written: int,
    size: int,
) -> Outcome
    decreases patch.len() - pos,
    via apply_entries_terminates
{
    if pos < 0 || pos + ENTRY_LEN > patch.len() {
        Outcome { output: Seq::empty(), result: Err(Error::PatchTruncated) }
    } else {
        let entry = EntryHeader::parse(patch.subrange(pos, pos + 24));
        let diff = diff_phase(old, patch, pos + 24, cursor, entry.diff as int);
        let extra = extra_phase(patch, pos + 24 + entry.diff, entry.extra as int);
        let moved = cursor + entry.diff + entry.seek;
        if entry.is_end() {
            Outcome {
                output: Seq::empty(),
                result: if written == size {
                    Ok(pos + 24)
                } else {
                    Err(Error::PatchTruncated)
                },
            }
        } else if diff.error is Some {
            Outcome { output: diff.output, result: Err(diff.error->0) }
        } else if extra.error is Some {
            Outcome { output: diff.output + extra.output, result: Err(extra.error->0) }
        } else if moved < 0 || moved > u64::MAX {
            Outcome { output: diff.output + extra.output, result: Err(Error::PatchCorrupt) }
        } else {
            let rest = apply_entries(
                old,
                patch,
                pos + 24 + entry.diff + entry.extra,
                moved,
                written + entry.diff + entry.extra,
                size,
            );
            Outcome { output: diff.output + extra.output + rest.output, result: rest.result }
        }
    }
}

#[via_fn]
proof fn apply_entries_terminates(
    old: Seq<u8>,
    patch: Seq<u8>,
    pos: int,
    cursor: int,
    written: int,
    size: int,
) {
    reveal(diff_phase);
    reveal(extra_phase);
}

/// Applies the entries of a patch whose header, already read, held `magic` and announced
/// `size` bytes.
pub open spec fn apply_body(
    old: Seq<u8>,
    patch: Seq<u8>,
    pos: int,
    cursor: int,
    magic: Seq<u8>,
    size: int,
) -> Outcome {
    if magic != DDELTA_MAGIC@ {
        Outcome { output: Seq::empty(), result: Err(Error::BadMagic) }
    } else {
        apply_entries(old, patch, pos, cursor, 0, size)
    }
}

/// Applies the patch that starts at `pos`, with the old data read from `cursor` on.
pub open spec fn apply_from(old: Seq<u8>, patch: Seq<u8>, pos: int, cursor: int) -> Outcome {
    if pos + HEADER_LEN > patch.len() {
        Outcome { output: Seq::empty(), result: Err(Error::PatchTruncated) }
    } else {
        apply_body(
            old,
            patch,
            pos + 16,
            cursor,
            patch.subrange(pos, pos + 8),
            be64_value(patch.subrange(pos + 8, pos + 16)),
        )
    }
}

/// Applies one patch to the old data.
pub open spec fn apply_spec(old: Seq<u8>, patch: Seq<u8>) -> Outcome {
    apply_from(old, patch, 0, 0)
}

/// Applies the patches that follow one another from `pos` on, until fewer bytes than a
/// header are left. Each patch reads the old data from where the new data stood when the
/// patch began: `written` bytes in.
pub open spec fn apply_all(old: Seq<u8>, patch: Seq<u8>, pos: int, written: int) -> Outcome
    decreases patch.len() - pos,
    via apply_all_terminates
{
    if pos < 0 || pos + HEADER_LEN > patch.len() {
        Outcome { output: Seq::empty(), result: Ok(pos) }
    } else {
        let first = apply_from(old, patch, pos, written);
        match first.result {
            Err(e) => first,
            Ok(next) => {
                let rest = apply_all(
                    old,
                    patch,
                    next,
                    written + be64_value(patch.subrange(pos + 8, pos + 16)),
                );
                Outcome { output: first.output + rest.output, result: rest.result }
            },
        }
    }
}

#[via_fn]
proof fn apply_all_terminates(old: Seq<u8>, patch: Seq<u8>, pos: int, written: int) {
    if !(pos < 0 || pos + HEADER_LEN > patch.len()) {
        let size = be64_value(patch.subrange(pos + 8, pos + 16));
        lemma_apply_entries_ok(old, patch, pos + 16, written, 0, size);
    }
}

/// Applies any number of patches that follow one another.
pub open spec fn apply_chunked_spec(old: Seq<u8>, patch: Seq<u8>) -> Outcome {
    apply_all(old, patch, 0, 0)
}

/// An entry that is not the terminator and whose phases and seek succeed is followed by the
/// entries behind its payload.
pub proof fn lemma_apply_entries_step(
    old: Seq<u8>,
    patch: Seq<u8>,
    pos: int,
    cursor: int,
    written: int,
    size: int,
)
    requires
        0 <= pos,
        pos + 24 <= patch.len(),
        ({
            let entry = EntryHeader::parse(patch.subrange(pos, pos + 24));
            &&& !entry.is_end()
            &&& diff_phase(old, patch, pos + 24, cursor, entry.diff as int).error is None
            &&& extra_phase(patch, pos + 24 + entry.diff, entry.extra as int).error is None
            &&& 0 <= cursor + entry.diff + entry.seek <= u64::MAX
        }),
    ensures
        ({
            let entry = EntryHeader::parse(patch.subrange(pos, pos + 24));
            let diff = diff_phase(old, patch, pos + 24, cursor, entry.diff as int);
            let extra = extra_phase(patch, pos + 24 + entry.diff, entry.extra as int);
            let rest = apply_entries(
                old,
                patch,
                pos + 24 + entry.diff + entry.extra,
                cursor + entry.diff + entry.seek,
                written + entry.diff + entry.extra,
                size,
            );
            apply_entries(old, patch, pos, cursor, written, size) == Outcome {
                output: diff.output + extra.output + rest.output,
                result: rest.result,
            }
        }),
{
    reveal(apply_entries);
}

/// Where a successful run over the entries ends, and what it has counted.
pub proof fn lemma_apply_entries_ok(
    old: Seq<u8>,
    patch: Seq<u8>,
    pos: int,
    cursor: int,
    written: int,
    size: int,
)
    requires
        0 <= pos,
        0 <= written,
    ensures
        apply_entries(old, patch, pos, cursor, written, size).result matches Ok(end) ==> {
            &&& pos + 24 <= end <= patch.len()
            &&& size == written + apply_entries(old, patch, pos, cursor, written, size).output.len()
            &&& size - written <= end - pos - 24
        },
    decreases patch.len() - pos,
{
    reveal(diff_phase);
    reveal(extra_phase);
    reveal(apply_entries);
    if pos + ENTRY_LEN > patch.len() {
    } else {
        let entry = EntryHeader::parse(patch.subrange(pos, pos + 24));
        let diff = diff_phase(old, patch, pos + 24, cursor, entry.diff as int);
        let extra = extra_phase(patch, pos + 24 + entry.diff, entry.extra as int);
        let moved = cursor + entry.diff + entry.seek;
        if entry.is_end() || diff.error is Some || extra.error is Some || moved < 0 || moved
            > u64::MAX {
        } else {
            lemma_apply_entries_ok(
                old,
                patch,
                pos + 24 + entry.diff + entry.extra,
                moved,
                written + entry.diff + entry.extra,
                size,
            );
        }
    }
}

proof fn lemma_whole_blocks(ready: int, done: int)
    requires
        0 <= done <= ready < done + BLOCK_SIZE,
        done % (BLOCK_SIZE as int) == 0,
    ensures
        ready - ready % (BLOCK_SIZE as int) == done,
{
}

/// Adds `size` diff bytes, read at `pos` in the patch, to the bytes of the old data from
/// `cursor` on, and appends the sums to the new data.
pub fn apply_diff(
    patch_f: &[u8],
    pos: usize,
    old_f: &[u8],
    cursor: u64,
    new_f: &mut Vec<u8>,
    size: u64,
) -> (r: Result<(), Error>)
    requires
        pos <= patch_f.len(),
    ensures
        final(new_f)@ == old(new_f)@ + diff_phase(
            old_f@,
            patch_f@,
            pos as int,
            cursor as int,
            size as int,
        ).output,
        r is Ok <==> diff_phase(old_f@, patch_f@, pos as int, cursor as int, size as int).error
            is None,
        r matches Err(e) ==> diff_phase(
            old_f@,
            patch_f@,
            pos as int,
            cursor as int,
            size as int,
        ).error == Some(e),
{
    reveal(diff_phase);
    let ghost start = new_f@;
    let ghost in_patch = patch_f.len() - pos;
    let ghost in_old: int = if cursor <= old_f.len() {
        old_f.len() - cursor
    } else {
        0
    };
    let ghost ready = min(size as int, min(in_patch, in_old));
    let mut done: u64 = 0;
    assert(new_f@ =~= start + patched(old_f@, cursor as int, patch_f@.subrange(pos as int, pos + 0)));
    while done < size
        invariant
            start == old(new_f)@,
            pos <= patch_f.len(),
            in_patch == patch_f.len() - pos,
            in_old == if cursor <= old_f.len() {
                old_f.len() - cursor
            } else {
                0
            },
            ready == min(size as int, min(in_patch, in_old)),
            done <= ready,
            done == size || (done as int) % (BLOCK_SIZE as int) == 0,
            new_f@ == start + patched(
                old_f@,
                cursor as int,
                patch_f@.subrange(pos as int, pos + done),
            ),
        decreases size - done,
    {
        let to_read: u64 = if size - done < BLOCK_SIZE {
            size - done
        } else {
            BLOCK_SIZE
        };
        let left_in_patch: u64 = (patch_f.len() - pos) as u64 - done;
        proof {
            reveal(diff_phase);
        }
        if left_in_patch < to_read {
            proof {
                lemma_whole_blocks(ready, done as int);
            }
            return Err(Error::PatchTruncated);
        }
        if cursor > old_f.len() as u64 || (old_f.len() as u64 - cursor) - done < to_read {
            proof {
                lemma_whole_blocks(ready, done as int);
            }
            return Err(Error::PatchCorrupt);
        }
        let from_patch: usize = pos + done as usize;
        let from_old: usize = (cursor + done) as usize;
        let count: usize = to_read as usize;
        let mut i: usize = 0;
        while i < count
            invariant
                i <= count,
                count == to_read,
                from_patch == pos + done,
                from_old == cursor + done,
                from_patch + count <= patch_f.len(),
                from_old + count <= old_f.len(),
                new_f@ == start + patched(
                    old_f@,
                    cursor as int,
                    patch_f@.subrange(pos as int, pos + done + i),
                ),
            decreases count - i,
        {
            new_f.push(old_f[from_old + i].wrapping_add(patch_f[from_patch + i]));
            assert(new_f@ =~= start + patched(
                old_f@,
                cursor as int,
                patch_f@.subrange(pos as int, pos + done + i + 1),
            ));
            i += 1;
        }
        done += to_read;
    }
    Ok(())
}

/// Appends `bytes` literal bytes, read at `pos` in `src`, to `dst`.
pub fn copy_bytes(src: &[u8], pos: usize, dst: &mut Vec<u8>, bytes: u64) -> (r: Result<(), Error>)
    requires
        pos <= src.len(),
    ensures
        final(dst)@ == old(dst)@ + extra_phase(src@, pos as int, bytes as int).output,
        r is Ok <==> extra_phase(src@, pos as int, bytes as int).error is None,
        r matches Err(e) ==> extra_phase(src@, pos as int, bytes as int).error == Some(e),
{
    reveal(extra_phase);
    let ghost start = dst@;
    let ghost in_patch = src.len() - pos;
    let mut done: u64 = 0;
    assert(dst@ =~= start + src@.subrange(pos as int, pos + 0));
    while done < bytes
        invariant
            start == old(dst)@,
            pos <= src.len(),
            in_patch == src.len() - pos,
            done <= bytes,
            done <= in_patch,
            done == bytes || (done as int) % (BLOCK_SIZE as int) == 0,
            dst@ == start + src@.subrange(pos as int, pos + done),
        decreases bytes - done,
    {
        let to_read: u64 = if bytes - done < BLOCK_SIZE {
            bytes - done
        } else {
            BLOCK_SIZE
        };
        let left: u64 = (src.len() - pos) as u64 - done;
        proof {
            reveal(extra_phase);
        }
        if left < to_read {
            proof {
                lemma_whole_blocks(in_patch, done as int);
            }
            return Err(Error::PatchTruncated);
        }
        let from: usize = pos + done as usize;
        let until: usize = from + to_read as usize;
        dst.extend_from_slice(&src[from..until]);
        assert(dst@ =~= start + src@.subrange(pos as int, pos + done + to_read));
        done += to_read;
    }
    Ok(())
}

/// Applies the entries of a patch whose header was read already. The entries start at
/// `pos` in the patch, and the old data is read from `cursor` on. Returns the position in
/// the patch behind the terminator.
pub fn apply_with_header(
    old_f: &[u8],
    new_f: &mut Vec<u8>,
    patch_f: &[u8],
    pos: usize,
    cursor: u64,
    header: PatchHeader,
) -> (r: Result<usize, Error>)
    requires
        pos <= patch_f.len(),
    ensures
        ({
            let out = apply_body(
                old_f@,
                patch_f@,
                pos as int,
                cursor as int,
                header.magic@,
                header.new_file_size as int,
            );
            &&& final(new_f)@ == old(new_f)@ + out.output
            &&& r matches Ok(end) ==> out.result == Ok::<int, Error>(end as int)
            &&& r matches Err(e) ==> out.result == Err::<int, Error>(e)
        }),
{
    if !is_magic(&header.magic) {
        assert(new_f@ =~= old(new_f)@ + Seq::<u8>::empty());
        return Err(Error::BadMagic);
    }
    let ghost start = new_f@;
    let ghost size = header.new_file_size as int;
    let ghost total = apply_entries(old_f@, patch_f@, pos as int, cursor as int, 0, size);
    let mut at: usize = pos;
    let mut old_at: u64 = cursor;
    let mut bytes_written: u64 = 0;
    loop
        invariant
            start == old(new_f)@,
            size == header.new_file_size,
            header.magic@ == DDELTA_MAGIC@,
            total == apply_entries(old_f@, patch_f@, pos as int, cursor as int, 0, size),
            pos <= at <= patch_f.len(),
            bytes_written <= at - pos,
            start + total.output == new_f@ + apply_entries(
                old_f@,
                patch_f@,
                at as int,
                old_at as int,
                bytes_written as int,
                size,
            ).output,
            total.result == apply_entries(
                old_f@,
                patch_f@,
                at as int,
                old_at as int,
                bytes_written as int,
                size,
            ).result,
        decreases patch_f.len() - at,
    {
        let ghost before = new_f@;
        let ghost here = apply_entries(
            old_f@,
            patch_f@,
            at as int,
            old_at as int,
            bytes_written as int,
            size,
        );
        proof {
            reveal(apply_entries);
        }
        let entry = match read_entry(patch_f, at) {
            Ok(entry) => entry,
            Err(e) => {
                assert(new_f@ =~= before + here.output);
                return Err(e);
            },
        };
        if entry.diff == 0 && entry.extra == 0 && entry.seek == 0 {
            assert(new_f@ =~= before + here.output);
            return if bytes_written == header.new_file_size {
                Ok(at + ENTRY_LEN)
            } else {
                Err(Error::PatchTruncated)
            };
        }
        let ghost diff = diff_phase(
            old_f@,
            patch_f@,
            at + 24,
            old_at as int,
            entry.diff as int,
        );
        let ghost extra = extra_phase(patch_f@, at + 24 + entry.diff, entry.extra as int);
        proof {
            lemma_phase_ok(old_f@, patch_f@, at + 24, old_at as int, entry.diff as int);
            lemma_phase_ok(
                old_f@,
                patch_f@,
                at + 24 + entry.diff,
                old_at as int,
                entry.extra as int,
            );
        }
        match apply_diff(patch_f, at + ENTRY_LEN, old_f, old_at, new_f, entry.diff) {
            Ok(()) => {},
            Err(e) => {
                assert(new_f@ =~= before + here.output);
                return Err(e);
            },
        }
        let literals: usize = at + ENTRY_LEN + entry.diff as usize;
        match copy_bytes(patch_f, literals, new_f, entry.extra) {
            Ok(()) => {},
            Err(e) => {
                assert(new_f@ =~= before + here.output);
                return Err(e);
            },
        }
        let moved: i128 = old_at as i128 + entry.diff as i128 + entry.seek as i128;
        if moved < 0 || moved > u64::MAX as i128 {
            assert(new_f@ =~= before + here.output);
            return Err(Error::PatchCorrupt);
        }
        proof {
            let rest = apply_entries(
                old_f@,
                patch_f@,
                at + 24 + entry.diff + entry.extra,
                moved as int,
                bytes_written + entry.diff + entry.extra,
                size,
            );
            assert(here.output == diff.output + extra.output + rest.output);
            assert(new_f@ == before + diff.output + extra.output);
            assert(start + total.output =~= new_f@ + rest.output);
        }
        at = literals + entry.extra as usize;
        old_at = moved as u64;
        bytes_written = bytes_written + entry.diff + entry.extra;
    }
}

/// Applies a patch to the old data and appends what it produces to `new_f`. Bytes that
/// follow the patch's terminator are not looked at.
///
/// Succeeds if the patch starts with a header that holds the magic bytes, every entry and
/// its payload are complete, the old data holds what the diff bytes are added to, no seek
/// leads before the start of the old data, and the terminator comes when as many bytes as
/// the header announced were produced. On failure `new_f` holds what was produced until then.
pub fn apply(old_f: &[u8], new_f: &mut Vec<u8>, patch_f: &[u8]) -> (r: Result<(), Error>)
    ensures
        ({
            let out = apply_spec(old_f@, patch_f@);
            &&& final(new_f)@ == old(new_f)@ + out.output
            &&& r is Ok <==> out.result is Ok
            &&& r matches Err(e) ==> out.result == Err::<int, Error>(e)
        }),
{
    let header = match read_header(patch_f, 0) {
        Ok(header) => header,
        Err(e) => {
            assert(new_f@ =~= old(new_f)@ + Seq::<u8>::empty());
            return Err(e);
        },
    };
    match apply_with_header(old_f, new_f, patch_f, HEADER_LEN, 0, header) {
        Ok(_) => Ok(()),
        Err(e) => Err(e),
    }
}

/// Applies patches that follow one another, until fewer bytes than a header are left of
/// `patch_f`. Each of them reads the old data from the position where its new data begins.
/// A single patch is applied as by [`apply`].
pub fn apply_chunked(old_f: &[u8], new_f: &mut Vec<u8>, patch_f: &[u8]) -> (r: Result<(), Error>)
    ensures
        ({
            let out = apply_chunked_spec(old_f@, patch_f@);
            &&& final(new_f)@ == old(new_f)@ + out.output
            &&& r is Ok <==> out.result is Ok
            &&& r matches Err(e) ==> out.result == Err::<int, Error>(e)
        }),
{
    let ghost start = new_f@;
    let ghost total = apply_all(old_f@, patch_f@, 0, 0);
    let mut at: usize = 0;
    let mut bytes_written: u64 = 0;
    loop
        invariant
            start == old(new_f)@,
            total == apply_all(old_f@, patch_f@, 0, 0),
            at <= patch_f.len(),
            bytes_written <= at,
            start + total.output == new_f@ + apply_all(
                old_f@,
                patch_f@,
                at as int,
                bytes_written as int,
            ).output,
            total.result == apply_all(old_f@, patch_f@, at as int, bytes_written as int).result,
        decreases patch_f.len() - at,
    {
        let ghost before = new_f@;
        let ghost here = apply_all(old_f@, patch_f@, at as int, bytes_written as int);
        let header = match read_header(patch_f, at) {
            Ok(header) => header,
            Err(_) => {
                assert(new_f@ =~= before + here.output);
                return Ok(());
            },
        };
        proof {
            lemma_apply_entries_ok(
                old_f@,
                patch_f@,
                at + 16,
                bytes_written as int,
                0,
                header.new_file_size as int,
            );
        }
        match apply_with_header(old_f, new_f, patch_f, at + HEADER_LEN, bytes_written, header) {
            Ok(next) => {
                proof {
                    let first = apply_from(old_f@, patch_f@, at as int, bytes_written as int);
                    let rest = apply_all(
                        old_f@,
                        patch_f@,
                        next as int,
                        bytes_written + header.new_file_size,
                    );
                    assert(here.output == first.output + rest.output);
                    assert(start + total.output =~= new_f@ + rest.output);
                }
                bytes_written = bytes_written + header.new_file_size;
                at = next;
            },
            Err(e) => {
                return Err(e);
            },
        }
    }
}

} // verus!
