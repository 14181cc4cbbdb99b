use ddelta::patch::{apply_diff, apply_with_header, copy_bytes, BLOCK_SIZE};
use ddelta::format::PatchHeader;
use ddelta::{apply, apply_chunked, generate, Error};

fn entry(diff: u64, extra: u64, seek: i64) -> Vec<u8> {
    let mut bytes = Vec::new();
    bytes.extend_from_slice(&diff.to_be_bytes());
    bytes.extend_from_slice(&extra.to_be_bytes());
    bytes.extend_from_slice(&seek.to_be_bytes());
    bytes
}

fn header(size: u64) -> Vec<u8> {
    let mut bytes = b"DDELTA40".to_vec();
    bytes.extend_from_slice(&size.to_be_bytes());
    bytes
}

fn join(parts: &[&[u8]]) -> Vec<u8> {
    parts.concat()
}

fn apply_to(old: &[u8], patch: &[u8]) -> (Vec<u8>, Result<(), Error>) {
    let mut new = Vec::new();
    let result = apply(old, &mut new, patch);
    (new, result)
}

fn apply_chunked_to(old: &[u8], patch: &[u8]) -> (Vec<u8>, Result<(), Error>) {
    let mut new = Vec::new();
    let result = apply_chunked(old, &mut new, patch);
    (new, result)
}

#[test]
fn truncated_patch() {
    let old = b"Hello, World!";
    let mut patch = Vec::new();
    generate(old, b"Hello, Delta!", &mut patch, |_| {}).unwrap();
    patch.pop();
    let (new, result) = apply_to(old, &patch);
    assert_eq!(result, Err(Error::PatchTruncated));
    // The block in front of the cut-off terminator was applied.
    assert_eq!(new, b"Hello, Delta!");
}

#[test]
fn every_truncation_fails() {
    let old = b"The quick brown fox jumps over the lazy dog";
    let new = b"The quick brown cat jumps over the lazy dog, twice";
    let mut patch = Vec::new();
    generate(old, new, &mut patch, |_| {}).unwrap();
    for len in 0..patch.len() {
        let (_, result) = apply_to(old, &patch[..len]);
        assert_eq!(result, Err(Error::PatchTruncated));
    }
    assert_eq!(apply_to(old, &patch), (new.to_vec(), Ok(())));
}

#[test]
fn corrupt_magic() {
    let old = b"Hello, World!";
    let mut patch = Vec::new();
    generate(old, old, &mut patch, |_| {}).unwrap();
    patch[7] = b'1';
    assert_eq!(&patch[..8], b"DDELTA41");
    assert_eq!(apply_to(old, &patch), (vec![], Err(Error::BadMagic)));
    assert_eq!(apply_chunked_to(old, &patch), (vec![], Err(Error::BadMagic)));
}

#[test]
fn input_too_large() {
    let large = vec![0u8; i32::MAX as usize + 1];
    let mut patch = b"x".to_vec();
    assert_eq!(generate(&large, b"", &mut patch, |_| {}), Err(Error::InputTooLarge));
    assert_eq!(generate(b"", &large, &mut patch, |_| {}), Err(Error::InputTooLarge));
    assert_eq!(patch, b"x");
}

#[test]
fn terminator_before_the_announced_size() {
    let patch = join(&[&header(5), &entry(0, 3, 0), b"abc", &entry(0, 0, 0)]);
    assert_eq!(apply_to(b"", &patch), (b"abc".to_vec(), Err(Error::PatchTruncated)));
    let patch = join(&[&header(1), &entry(0, 0, 0)]);
    assert_eq!(apply_to(b"", &patch), (vec![], Err(Error::PatchTruncated)));
}

#[test]
fn terminator_after_the_announced_size() {
    let patch = join(&[&header(2), &entry(0, 3, 0), b"abc", &entry(0, 0, 0)]);
    assert_eq!(apply_to(b"", &patch), (b"abc".to_vec(), Err(Error::PatchTruncated)));
}

#[test]
fn seek_before_the_start_of_the_old_data() {
    let patch = join(&[&header(3), &entry(2, 1, -3), &[0, 0], b"x", &entry(0, 0, 0)]);
    assert_eq!(apply_to(b"abc", &patch), (b"abx".to_vec(), Err(Error::PatchCorrupt)));
    // Back to the start is fine.
    let patch = join(&[&header(3), &entry(2, 1, -2), &[0, 0], b"x", &entry(0, 0, 0)]);
    assert_eq!(apply_to(b"abc", &patch), (b"abx".to_vec(), Ok(())));
}

#[test]
fn seek_behind_every_position() {
    let patch = join(&[
        &header(2),
        &entry(0, 1, i64::MAX),
        b"x",
        &entry(0, 1, i64::MAX),
        b"y",
        &entry(0, 0, 1),
    ]);
    assert_eq!(apply_to(b"abc", &patch), (b"xy".to_vec(), Err(Error::PatchTruncated)));
    let patch = join(&[
        &header(3),
        &entry(0, 1, i64::MAX),
        b"x",
        &entry(0, 1, i64::MAX),
        b"y",
        &entry(0, 1, 2),
        b"z",
        &entry(0, 0, 0),
    ]);
    assert_eq!(apply_to(b"abc", &patch), (b"xyz".to_vec(), Err(Error::PatchCorrupt)));
}

#[test]
fn seek_behind_the_end_of_the_old_data() {
    // The position may lie behind the end as long as nothing is read there.
    let patch = join(&[&header(2), &entry(0, 1, 10), b"x", &entry(0, 1, -10), b"y", &entry(0, 0, 0)]);
    assert_eq!(apply_to(b"abc", &patch), (b"xy".to_vec(), Ok(())));
    let patch = join(&[&header(2), &entry(0, 1, 10), b"x", &entry(1, 0, 0), &[0], &entry(0, 0, 0)]);
    assert_eq!(apply_to(b"abc", &patch), (b"x".to_vec(), Err(Error::PatchCorrupt)));
}

#[test]
fn diff_bytes_without_old_data() {
    let patch = join(&[&header(4), &entry(4, 0, 0), &[1, 1, 1, 1], &entry(0, 0, 0)]);
    assert_eq!(apply_to(b"abc", &patch), (vec![], Err(Error::PatchCorrupt)));
    assert_eq!(apply_to(b"abcd", &patch), (b"bcde".to_vec(), Ok(())));
}

#[test]
fn diff_bytes_are_added_modulo_256() {
    let patch = join(&[&header(3), &entry(3, 0, 0), &[1, 0xFF, 0x80], &entry(0, 0, 0)]);
    assert_eq!(apply_to(&[0xFF, 0x01, 0x80], &patch), (vec![0x00, 0x00, 0x00], Ok(())));
}

#[test]
fn payload_cut_off() {
    let patch = join(&[&header(4), &entry(2, 2, 0), &[0, 0], b"x"]);
    assert_eq!(apply_to(b"ab", &patch), (b"ab".to_vec(), Err(Error::PatchTruncated)));
    let patch = join(&[&header(4), &entry(2, 2, 0), &[0]]);
    assert_eq!(apply_to(b"ab", &patch), (vec![], Err(Error::PatchTruncated)));
    // The patch is looked at first, the old data second.
    assert_eq!(apply_to(b"a", &patch), (vec![], Err(Error::PatchTruncated)));
}

#[test]
fn whole_blocks_are_produced_before_a_failure() {
    let block = BLOCK_SIZE as usize;
    let old = vec![1u8; 3 * block];
    let diff = vec![2u8; 3 * block];

    // The patch ends in the third block of diff bytes.
    let mut new = Vec::new();
    let patch = &diff[..2 * block + 5];
    assert_eq!(
        apply_diff(patch, 0, &old, 0, &mut new, 3 * BLOCK_SIZE),
        Err(Error::PatchTruncated)
    );
    assert_eq!(new, vec![3u8; 2 * block]);

    // The old data ends in the second block.
    let mut new = Vec::new();
    assert_eq!(
        apply_diff(&diff, 0, &old[..block + 1], 0, &mut new, 3 * BLOCK_SIZE),
        Err(Error::PatchCorrupt)
    );
    assert_eq!(new, vec![3u8; block]);

    // A last block that is shorter is produced if it is all there.
    let mut new = Vec::new();
    assert_eq!(apply_diff(&diff, 0, &old, 0, &mut new, 2 * BLOCK_SIZE + 7), Ok(()));
    assert_eq!(new, vec![3u8; 2 * block + 7]);

    let mut new = Vec::new();
    assert_eq!(
        copy_bytes(&diff[..block + 100], 3, &mut new, 2 * BLOCK_SIZE),
        Err(Error::PatchTruncated)
    );
    assert_eq!(new, vec![2u8; block]);

    let mut new = Vec::new();
    assert_eq!(copy_bytes(&diff, block - 1, &mut new, 2 * BLOCK_SIZE + 1), Ok(()));
    assert_eq!(new, vec![2u8; 2 * block + 1]);
}

#[test]
fn apply_diff_reads_from_the_given_positions() {
    let mut new = b"-".to_vec();
    assert_eq!(apply_diff(&[9, 9, 1, 2, 3], 2, b"abcdef", 3, &mut new, 3), Ok(()));
    assert_eq!(new, b"-egi");
    assert_eq!(apply_diff(&[1], 0, b"abc", u64::MAX, &mut new, 1), Err(Error::PatchCorrupt));
    assert_eq!(apply_diff(&[1], 0, b"abc", u64::MAX, &mut new, 0), Ok(()));
    assert_eq!(apply_diff(&[1], 1, b"abc", 0, &mut new, u64::MAX), Err(Error::PatchTruncated));
    assert_eq!(new, b"-egi");
}

#[test]
fn apply_with_header_checks_the_magic_and_returns_the_end() {
    let patch = join(&[b"..", &entry(1, 1, 0), &[1], b"x", &entry(0, 0, 0), b"rest"]);
    let mut new = Vec::new();
    let good = PatchHeader { magic: *b"DDELTA40", new_file_size: 2 };
    assert_eq!(apply_with_header(b"abc", &mut new, &patch, 2, 1, good), Ok(52));
    assert_eq!(new, b"cx");
    let bad = PatchHeader { magic: *b"BSDIFF40", new_file_size: 2 };
    assert_eq!(apply_with_header(b"abc", &mut new, &patch, 2, 1, bad), Err(Error::BadMagic));
    assert_eq!(new, b"cx");
}

#[test]
fn bytes_behind_the_terminator_are_left_alone() {
    let patch = join(&[&header(1), &entry(0, 1, 0), b"x", &entry(0, 0, 0), b"more"]);
    assert_eq!(apply_to(b"", &patch), (b"x".to_vec(), Ok(())));
    // Fewer bytes than a header behind a patch end a chunked patch.
    assert_eq!(apply_chunked_to(b"", &patch), (b"x".to_vec(), Ok(())));
}

#[test]
fn chunked_patch_without_a_patch() {
    assert_eq!(apply_chunked_to(b"abc", b""), (vec![], Ok(())));
    assert_eq!(apply_chunked_to(b"abc", b"DDELTA40"), (vec![], Ok(())));
    assert_eq!(apply_to(b"abc", b""), (vec![], Err(Error::PatchTruncated)));
}

#[test]
fn chunked_patch_reads_old_data_from_where_the_new_data_stands() {
    let first = join(&[&header(2), &entry(2, 0, 0), &[0, 0], &entry(0, 0, 0)]);
    let second = join(&[&header(2), &entry(2, 0, 0), &[1, 1], &entry(0, 0, 0)]);
    let patch = join(&[&first, &second]);
    assert_eq!(apply_chunked_to(b"abcd", &patch), (b"abde".to_vec(), Ok(())));
    assert_eq!(apply_to(b"abcd", &patch), (b"ab".to_vec(), Ok(())));
    assert_eq!(apply_chunked_to(b"abc", &patch), (b"ab".to_vec(), Err(Error::PatchCorrupt)));
}

#[test]
fn chunked_patch_with_a_broken_second_patch() {
    let first = join(&[&header(1), &entry(0, 1, 0), b"x", &entry(0, 0, 0)]);
    let patch = join(&[&first, b"DDELTA41", &[0; 8], &entry(0, 0, 0)]);
    assert_eq!(apply_chunked_to(b"", &patch), (b"x".to_vec(), Err(Error::BadMagic)));
    let patch = join(&[&first, &header(0), &[0; 23]]);
    assert_eq!(apply_chunked_to(b"", &patch), (b"x".to_vec(), Err(Error::PatchTruncated)));
}
