use ddelta::{apply, apply_chunked, generate, generate_chunked, Error, State};

fn patch_for(old: &[u8], new: &[u8]) -> Vec<u8> {
    let mut patch = Vec::new();
    generate(old, new, &mut patch, |_| {}).unwrap();
    patch
}

fn chunked_patch_for(old: &[u8], new: &[u8], chunk: Option<usize>) -> Vec<u8> {
    let mut patch = Vec::new();
    generate_chunked(old, new, &mut patch, chunk, |_| {});
    patch
}

fn apply_to(old: &[u8], patch: &[u8]) -> Result<Vec<u8>, Error> {
    let mut new = Vec::new();
    apply(old, &mut new, patch).map(|()| new)
}

fn apply_chunked_to(old: &[u8], patch: &[u8]) -> Result<Vec<u8>, Error> {
    let mut new = Vec::new();
    apply_chunked(old, &mut new, patch).map(|()| new)
}

fn noise(len: usize, mut seed: u64) -> Vec<u8> {
    let mut data = Vec::with_capacity(len);
    for _ in 0..len {
        seed ^= seed << 13;
        seed ^= seed >> 7;
        seed ^= seed << 17;
        data.push((seed >> 24) as u8);
    }
    data
}

fn entry(diff: u64, extra: u64, seek: i64) -> Vec<u8> {
    let mut bytes = Vec::new();
    bytes.extend_from_slice(&diff.to_be_bytes());
    bytes.extend_from_slice(&extra.to_be_bytes());
    bytes.extend_from_slice(&seek.to_be_bytes());
    bytes
}

#[test]
fn identical_data() {
    let old = b"Hello, World!";
    let patch = patch_for(old, old);
    assert_eq!(&patch[..8], b"DDELTA40");
    assert_eq!(&patch[8..16], &13u64.to_be_bytes());
    assert_eq!(apply_to(old, &patch).unwrap(), old);
}

#[test]
fn identical_data_gives_one_block_of_zero_differences() {
    let old = b"Hello, World!";
    let mut expected = b"DDELTA40".to_vec();
    expected.extend_from_slice(&13u64.to_be_bytes());
    expected.extend_from_slice(&entry(13, 0, -13));
    expected.extend_from_slice(&[0; 13]);
    expected.extend_from_slice(&entry(0, 0, 0));
    assert_eq!(patch_for(old, old), expected);
}

#[test]
fn changed_word() {
    let old = b"Hello, World!";
    let new = b"Hello, Delta!";
    let patch = patch_for(old, new);
    assert_eq!(apply_to(old, &patch).unwrap(), new);
}

#[test]
fn changed_word_gives_one_block() {
    // The scan stops at "Hello, " and at "!", both aligned with the start, so that no
    // block is written before the end. Its forward extension scores highest after the
    // seven bytes of "Hello, "; "Delta!" is literal; the last match was at 12.
    let old = b"Hello, World!";
    let new = b"Hello, Delta!";
    let mut expected = b"DDELTA40".to_vec();
    expected.extend_from_slice(&13u64.to_be_bytes());
    expected.extend_from_slice(&entry(7, 6, 5));
    expected.extend_from_slice(&[0; 7]);
    expected.extend_from_slice(b"Delta!");
    expected.extend_from_slice(&entry(0, 0, 0));
    assert_eq!(patch_for(old, new), expected);
}

#[test]
fn differences_are_new_less_old() {
    // One byte is changed. The scan stops at the match in front of it and at the match
    // behind it, both aligned with the start; the block written at the end takes all of
    // the new data as differences. The last match was at 13.
    let old = b"abcdefghijklmnopqrstuvwxyz";
    let new = b"abcdefghijklMnopqrstuvwxyz";
    let mut diff = [0u8; 26];
    diff[12] = 0xE0;
    let mut expected = b"DDELTA40".to_vec();
    expected.extend_from_slice(&26u64.to_be_bytes());
    expected.extend_from_slice(&entry(26, 0, -13));
    expected.extend_from_slice(&diff);
    expected.extend_from_slice(&entry(0, 0, 0));
    assert_eq!(patch_for(old, new), expected);
    assert_eq!(apply_to(old, &expected).unwrap(), new);
}

#[test]
fn nothing_in_common() {
    // No byte of the new data is in the old data: one block of literal bytes.
    let old = [0x00u8; 16];
    let new = [0xFFu8; 16];
    let mut expected = b"DDELTA40".to_vec();
    expected.extend_from_slice(&16u64.to_be_bytes());
    expected.extend_from_slice(&entry(0, 16, 0));
    expected.extend_from_slice(&new);
    expected.extend_from_slice(&entry(0, 0, 0));
    assert_eq!(patch_for(&old, &new), expected);
}

#[test]
fn zeros_to_ones() {
    let old = vec![0x00u8; 64 * 1024];
    let new = vec![0xFFu8; 64 * 1024];
    let patch = patch_for(&old, &new);
    assert_eq!(apply_to(&old, &patch).unwrap(), new);
    // Walk the entries: every diff byte is 0xFF - 0x00.
    let mut at = 16;
    loop {
        let diff = u64::from_be_bytes(patch[at..at + 8].try_into().unwrap()) as usize;
        let extra = u64::from_be_bytes(patch[at + 8..at + 16].try_into().unwrap()) as usize;
        let seek = i64::from_be_bytes(patch[at + 16..at + 24].try_into().unwrap());
        if diff == 0 && extra == 0 && seek == 0 {
            break;
        }
        assert!(patch[at + 24..at + 24 + diff].iter().all(|b| *b == 0xFF));
        at += 24 + diff + extra;
    }
    assert_eq!(at + 24, patch.len());
}

#[test]
fn empty_old_data() {
    let new = b"anything";
    let patch = patch_for(b"", new);
    assert_eq!(apply_to(b"", &patch).unwrap(), new);
    // One block that holds all of the new data as literal bytes.
    let mut expected = b"DDELTA40".to_vec();
    expected.extend_from_slice(&8u64.to_be_bytes());
    expected.extend_from_slice(&entry(0, 8, 0));
    expected.extend_from_slice(new);
    expected.extend_from_slice(&entry(0, 0, 0));
    assert_eq!(patch, expected);
}

#[test]
fn empty_new_data() {
    let mut expected = b"DDELTA40".to_vec();
    expected.extend_from_slice(&[0; 8]);
    expected.extend_from_slice(&[0; 24]);
    for old in [&b""[..], &b"x"[..], &b"Hello, World!"[..]] {
        let patch = patch_for(old, b"");
        assert_eq!(patch, expected);
        assert_eq!(apply_to(old, &patch).unwrap(), b"");
        assert_eq!(chunked_patch_for(old, b"", None), expected);
        assert_eq!(apply_chunked_to(old, &expected).unwrap(), b"");
    }
}

#[test]
fn insertion_in_the_middle_of_noise() {
    let old = noise(1024 * 1024, 0x2545F4914F6CDD1D);
    let mut new = old[..500 * 1024].to_vec();
    new.extend_from_slice(&noise(128, 99));
    new.extend_from_slice(&old[500 * 1024..]);
    let patch = patch_for(&old, &new);
    assert_eq!(apply_to(&old, &patch).unwrap(), new);
    // The patch holds the header, a few entries and the inserted bytes, and a zero for
    // every byte that stayed.
    let payload = patch.iter().filter(|b| **b != 0).count();
    assert!(payload < 4 * 1024);
    assert!(patch.len() < new.len() + 4 * 1024);
}

#[test]
fn moved_parts_are_found_again() {
    // The two halves of the old data change places. Each half is found as a match, so
    // that the patch holds no literal bytes.
    let old = noise(4000, 7);
    let mut new = old[2000..].to_vec();
    new.extend_from_slice(&old[..2000]);
    let patch = patch_for(&old, &new);
    assert_eq!(apply_to(&old, &patch).unwrap(), new);
    let mut expected = b"DDELTA40".to_vec();
    expected.extend_from_slice(&4000u64.to_be_bytes());
    // Nothing at the start of the new data goes with the start of the old data.
    expected.extend_from_slice(&entry(0, 0, 2000));
    expected.extend_from_slice(&entry(2000, 0, -4000));
    expected.extend_from_slice(&[0; 2000]);
    expected.extend_from_slice(&entry(2000, 0, -2000));
    expected.extend_from_slice(&[0; 2000]);
    expected.extend_from_slice(&entry(0, 0, 0));
    assert_eq!(patch, expected);
}

#[test]
fn many_small_inputs() {
    let alphabet = b"ab";
    let mut all: Vec<Vec<u8>> = vec![Vec::new()];
    for len in 1..=5 {
        for code in 0..(1usize << len) {
            all.push((0..len).map(|i| alphabet[(code >> i) & 1]).collect());
        }
    }
    for old in &all {
        for new in &all {
            let patch = patch_for(old, new);
            assert_eq!(&apply_to(old, &patch).unwrap(), new);
            assert_eq!(&apply_chunked_to(old, &patch).unwrap(), new);
        }
    }
}

#[test]
fn noise_with_scattered_changes() {
    let old = noise(50_000, 1);
    let mut new = old.clone();
    for i in (0..new.len()).step_by(997) {
        new[i] = new[i].wrapping_add(1);
    }
    new.truncate(45_000);
    new.extend_from_slice(&noise(3000, 2));
    let patch = patch_for(&old, &new);
    assert_eq!(apply_to(&old, &patch).unwrap(), new);
    assert!(patch.len() < 3000 + 45_000 + 24 * 100);
}

#[test]
fn appended_to_vec_that_holds_data() {
    let mut patch = b"keep".to_vec();
    generate(b"abc", b"abd", &mut patch, |_| {}).unwrap();
    assert_eq!(&patch[..4], b"keep");
    assert_eq!(&patch[4..], &patch_for(b"abc", b"abd")[..]);
    let mut new = b"first".to_vec();
    apply(b"abc", &mut new, &patch[4..]).unwrap();
    assert_eq!(new, b"firstabd");
}

#[test]
fn chunked_equals_unchunked_for_small_inputs() {
    let old = noise(3000, 3);
    let mut new = old.clone();
    new[1500] ^= 0xFF;
    for chunk in [None, Some(3000), Some(4096), Some(usize::MAX)] {
        let chunked = chunked_patch_for(&old, &new, chunk);
        assert_eq!(chunked, patch_for(&old, &new));
        assert_eq!(apply_chunked_to(&old, &chunked).unwrap(), new);
        assert_eq!(apply_to(&old, &chunked).unwrap(), new);
    }
}

#[test]
fn chunk_size_is_at_least_1024() {
    let old = noise(1024, 4);
    let new = noise(1024, 5);
    let expected = patch_for(&old, &new);
    assert_eq!(chunked_patch_for(&old, &new, Some(0)), expected);
    assert_eq!(chunked_patch_for(&old, &new, Some(1)), expected);
    assert_eq!(chunked_patch_for(&old, &new, Some(1023)), expected);
    assert_eq!(chunked_patch_for(&old, &new, Some(1024)), expected);
}

#[test]
fn chunked_patch_is_one_patch_per_chunk() {
    let old = noise(5000, 6);
    let mut new = old.clone();
    new[100] ^= 1;
    new[2100] ^= 1;
    new[4100] ^= 1;
    new.extend_from_slice(&noise(500, 8));
    let chunked = chunked_patch_for(&old, &new, Some(2048));
    let mut expected = Vec::new();
    expected.extend_from_slice(&patch_for(&old[..2048], &new[..2048]));
    expected.extend_from_slice(&patch_for(&old[2048..4096], &new[2048..4096]));
    expected.extend_from_slice(&patch_for(&old[4096..], &new[4096..]));
    assert_eq!(chunked, expected);
    assert_eq!(apply_chunked_to(&old, &chunked).unwrap(), new);
}

#[test]
fn chunked_with_new_data_that_ends_on_a_chunk() {
    let old = noise(2048, 9);
    let new = noise(2048, 10);
    let chunked = chunked_patch_for(&old, &new, Some(1024));
    let mut expected = patch_for(&old[..1024], &new[..1024]);
    expected.extend_from_slice(&patch_for(&old[1024..], &new[1024..]));
    assert_eq!(chunked, expected);
    assert_eq!(apply_chunked_to(&old, &chunked).unwrap(), new);
}

#[test]
fn chunked_with_short_old_data() {
    let old = noise(1500, 11);
    let mut new = old.clone();
    new.extend_from_slice(&noise(3000, 12));
    let chunked = chunked_patch_for(&old, &new, Some(1024));
    let mut expected = patch_for(&old[..1024], &new[..1024]);
    expected.extend_from_slice(&patch_for(&old[1024..], &new[1024..2048]));
    expected.extend_from_slice(&patch_for(b"", &new[2048..3072]));
    expected.extend_from_slice(&patch_for(b"", &new[3072..4096]));
    expected.extend_from_slice(&patch_for(b"", &new[4096..]));
    assert_eq!(chunked, expected);
    assert_eq!(apply_chunked_to(&old, &chunked).unwrap(), new);
}

#[test]
fn chunked_with_long_old_data() {
    let old = noise(5000, 13);
    let new = old[..1100].to_vec();
    let chunked = chunked_patch_for(&old, &new, Some(1024));
    let mut expected = patch_for(&old[..1024], &new[..1024]);
    expected.extend_from_slice(&patch_for(&old[1024..2048], &new[1024..]));
    assert_eq!(chunked, expected);
    assert_eq!(apply_chunked_to(&old, &chunked).unwrap(), new);
}

#[test]
fn progress_of_generate() {
    let old = noise(250_000, 14);
    let new = noise(250_000, 15);
    let mut states = Vec::new();
    generate(&old, &new, &mut Vec::new(), |s| states.push(s)).unwrap();
    assert_eq!(
        states,
        vec![State::Sorting, State::Working(0), State::Working(100_000), State::Working(200_000)]
    );
}

#[test]
fn progress_of_generate_chunked() {
    let old = noise(150_000, 16);
    let new = noise(150_000, 17);
    let mut states = Vec::new();
    generate_chunked(&old, &new, &mut Vec::new(), Some(120_000), |s| states.push(s));
    assert_eq!(
        states,
        vec![
            State::Reading,
            State::Sorting,
            State::Working(0),
            State::Working(100_000),
            State::Reading,
            State::Sorting,
            State::Working(120_000),
            State::Reading,
        ]
    );
}

#[test]
fn progress_for_empty_new_data() {
    let mut states = Vec::new();
    generate(b"abc", b"", &mut Vec::new(), |s| states.push(s)).unwrap();
    assert_eq!(states, vec![State::Sorting]);
    states.clear();
    generate_chunked(b"abc", b"", &mut Vec::new(), None, |s| states.push(s));
    assert_eq!(states, vec![State::Reading]);
}

struct Rng(u64);

impl Rng {
    fn next(&mut self) -> u64 {
        self.0 ^= self.0 << 13;
        self.0 ^= self.0 >> 7;
        self.0 ^= self.0 << 17;
        self.0
    }

    fn below(&mut self, n: usize) -> usize {
        (self.next() % n as u64) as usize
    }

    fn data(&mut self, len: usize, letters: usize) -> Vec<u8> {
        (0..len).map(|_| b'a' + self.below(letters) as u8).collect()
    }
}

#[test]
fn edited_data_of_few_letters() {
    let mut rng = Rng(0x9E3779B97F4A7C15);
    for round in 0..300 {
        let letters = 1 + round % 4;
        let old_len = rng.below(300);
        let old = rng.data(old_len, letters);
        let mut new = old.clone();
        for _ in 0..rng.below(6) {
            let at = rng.below(new.len() + 1);
            match rng.below(3) {
                0 => {
                    let len = rng.below(40);
                    let piece = rng.data(len, letters);
                    new.splice(at..at, piece);
                }
                1 => {
                    let end = (at + rng.below(40)).min(new.len());
                    new.drain(at..end);
                }
                _ => {
                    let from = rng.below(old.len() + 1);
                    let to = (from + rng.below(60)).min(old.len());
                    new.splice(at..at, old[from..to].iter().copied());
                }
            }
        }
        let patch = patch_for(&old, &new);
        assert_eq!(apply_to(&old, &patch).unwrap(), new);
        assert_eq!(apply_chunked_to(&old, &patch).unwrap(), new);
    }
}

#[test]
fn periodic_data() {
    // Long runs in which the search results hardly change.
    let old: Vec<u8> = (0..6000).map(|i| b"abcabcabd"[i % 9]).collect();
    let new: Vec<u8> = (0..7000).map(|i| b"abcabdabcabcx"[i % 13]).collect();
    let patch = patch_for(&old, &new);
    assert_eq!(apply_to(&old, &patch).unwrap(), new);
    let patch = patch_for(&new, &old);
    assert_eq!(apply_to(&new, &patch).unwrap(), old);
    let ones = vec![1u8; 5000];
    let mut nearly = ones.clone();
    for i in (0..nearly.len()).step_by(10) {
        nearly[i] = 2;
    }
    let patch = patch_for(&ones, &nearly);
    assert_eq!(apply_to(&ones, &patch).unwrap(), nearly);
    let patch = patch_for(&nearly, &ones);
    assert_eq!(apply_to(&nearly, &patch).unwrap(), ones);
}

#[test]
fn chunked_data_of_many_sizes() {
    let mut rng = Rng(0xD1B54A32D192ED03);
    for _ in 0..40 {
        let old_len = rng.below(5000);
        let old = rng.data(old_len, 3);
        let mut new = old.clone();
        let cut = rng.below(new.len() + 1);
        new.truncate(cut);
        let more = rng.below(4000);
        new.extend_from_slice(&rng.data(more, 3));
        let chunk = 1024 + rng.below(3000);
        let patch = chunked_patch_for(&old, &new, Some(chunk));
        assert_eq!(apply_chunked_to(&old, &patch).unwrap(), new);
    }
}
