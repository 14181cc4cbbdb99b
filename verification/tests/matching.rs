use ddelta::extend::{backward_extension, extend, forward_extension, overlap_split};
use ddelta::scan::next_candidate;
use ddelta::search::{match_len, r_memcmp, search};
use ddelta::State;
use std::cmp::Ordering;

#[test]
fn testy() {
    assert_eq!(match_len(b"abcdef", b"abcfed"), 3);
    assert_eq!(match_len(b"abc", b"abcfed"), 3);
    assert_eq!(match_len(b"abcdef", b"abc"), 3);
    assert_eq!(match_len(b"dabcde", b"abcfed"), 0);
}

#[test]
fn match_len_of_empty_and_equal() {
    assert_eq!(match_len(b"", b"abc"), 0);
    assert_eq!(match_len(b"abc", b""), 0);
    assert_eq!(match_len(b"", b""), 0);
    assert_eq!(match_len(b"abc", b"abc"), 3);
}

#[test]
fn r_memcmp_looks_at_the_shorter_length_only() {
    assert_eq!(r_memcmp(b"abc", b"abd"), Ordering::Less);
    assert_eq!(r_memcmp(b"abd", b"abc"), Ordering::Greater);
    assert_eq!(r_memcmp(b"abc", b"abc"), Ordering::Equal);
    assert_eq!(r_memcmp(b"ab", b"abc"), Ordering::Equal);
    assert_eq!(r_memcmp(b"abc", b"ab"), Ordering::Equal);
    assert_eq!(r_memcmp(b"", b"abc"), Ordering::Equal);
    assert_eq!(r_memcmp(b"b", b"abc"), Ordering::Greater);
}

// The suffixes of "banana" in order: a, ana, anana, banana, na, nana.
const BANANA: [i32; 7] = [5, 3, 1, 0, 4, 2, 0];

#[test]
fn search_finds_the_longest_match() {
    let mut pos = -1;
    let len = search(&BANANA, b"banana", b"nan", 0, 6, &mut pos);
    assert_eq!((len, pos), (3, 2));

    let len = search(&BANANA, b"banana", b"anax", 0, 6, &mut pos);
    assert_eq!((len, pos), (3, 1));

    let len = search(&BANANA, b"banana", b"banana", 0, 6, &mut pos);
    assert_eq!((len, pos), (6, 0));
}

#[test]
fn search_without_a_match() {
    let mut pos = -1;
    let len = search(&BANANA, b"banana", b"xyz", 0, 6, &mut pos);
    assert_eq!(len, 0);
    // Every suffix is smaller than the query: the search ends at the last two entries and
    // takes the upper one, the entry behind the suffix array.
    assert_eq!(pos, 0);
}

#[test]
fn search_prefers_the_upper_entry_on_a_tie() {
    // The suffixes of "aac" in order: aac, ac, c. The query "ab" lies between the first
    // two, and has one byte in common with each. The upper one is taken.
    let mut pos = -1;
    let len = search(&[0, 1, 2, 0], b"aac", b"ab", 0, 3, &mut pos);
    assert_eq!((len, pos), (1, 1));
}

#[test]
fn search_takes_the_longer_of_the_last_two() {
    // "an" lies between "a" and "ana" and behind neither "ana" nor "anana": the search
    // ends at "anana" and "banana".
    let mut pos = -1;
    let len = search(&BANANA, b"banana", b"an", 0, 6, &mut pos);
    assert_eq!((len, pos), (2, 1));
}

#[test]
fn search_in_an_empty_text() {
    let mut pos = -1;
    let len = search(&[0], b"", b"abc", 0, 0, &mut pos);
    assert_eq!((len, pos), (0, 0));
}

#[test]
fn forward_extension_takes_the_best_prefix() {
    // 2 * same - length is highest after "abc": 3.
    assert_eq!(forward_extension(b"abcxxxxx", b"abcyyyyy", 0, 0, 8), 3);
    // One differing byte in the middle is worth crossing.
    assert_eq!(forward_extension(b"abcxdef", b"abcydef", 0, 0, 7), 7);
    // Nothing in common.
    assert_eq!(forward_extension(b"aaaa", b"bbbb", 0, 0, 4), 0);
    // It stops at the end of the old data.
    assert_eq!(forward_extension(b"ab", b"abab", 0, 0, 4), 2);
    // It stops at the scan position.
    assert_eq!(forward_extension(b"abcd", b"abcd", 0, 0, 2), 2);
    // Of two lengths with the same score the first is taken.
    assert_eq!(forward_extension(b"axa", b"aya", 0, 0, 3), 1);
}

#[test]
fn backward_extension_takes_the_best_suffix() {
    // "xyz" in front of both positions.
    assert_eq!(backward_extension(b"..xyzQ", b"--xyzQ", 0, 5, 5), 3);
    // It stops at the start of the old data.
    assert_eq!(backward_extension(b"yzQ", b"xxyzQ", 0, 4, 2), 2);
    // It stops at the end of the last block.
    assert_eq!(backward_extension(b"wxyzQ", b"wxyzQ", 3, 4, 4), 1);
    assert_eq!(backward_extension(b"aaaaQ", b"bbbbQ", 0, 4, 4), 0);
}

#[test]
fn overlap_split_takes_the_best_cut() {
    // old = "abcdXXXXefgh", new = "abcdefgh": the forward run from 0 and the backward run
    // from the end of the match at 8 both cover all of the new data.
    let old = b"abcdXXXXefgh";
    let new = b"abcdefgh";
    // The forward run is right on "abcd", the backward run on "efgh".
    assert_eq!(overlap_split(old, new, 0, 0, 8, 12, 8, 8), 4);
    let (lenf, lenb) = (8 + 4 - 8, 8 - 4);
    assert_eq!((lenf, lenb), (4, 4));
}

#[test]
fn extend_keeps_the_runs_apart() {
    let old = b"abcdXXXXefgh";
    let new = b"abcdefgh+";
    // The forward run covers "abcd", the backward run in front of the match at 8, which
    // is at 12 in the old data, covers "efgh".
    assert_eq!(extend(old, new, 0, 0, 8, 12), (4, 4));
    // At the end of the new data nothing goes backward.
    assert_eq!(extend(b"abcd", b"abcd", 0, 0, 4, 0), (4, 0));
}

#[test]
fn next_candidate_stops_at_a_long_match() {
    // "0123456789" is at 3 in the old data and at 2 in the new data.
    let old = b"abc0123456789";
    let new = b"xy0123456789";
    let sorted = [3, 4, 5, 6, 7, 8, 9, 10, 11, 12, 0, 1, 2, 0];
    let mut states = Vec::new();
    let c = next_candidate(&sorted, old, new, 0, 0, 0, 0, 0, &mut |s| states.push(s));
    assert_eq!((c.scan, c.len, c.pos), (2, 10, 3));
    // Of the ten bytes of the match none is aligned with the start of the old data.
    assert_eq!(c.oldscore, 0);
    assert_eq!(states, vec![State::Working(0)]);
}

#[test]
fn next_candidate_stops_at_an_aligned_match() {
    let old = b"0123456789";
    let new = b"0123456789";
    let sorted = [0, 1, 2, 3, 4, 5, 6, 7, 8, 9, 0];
    let mut states = Vec::new();
    let c = next_candidate(&sorted, old, new, 0, 0, 0, 0, 7, &mut |s| states.push(s));
    assert_eq!((c.scan, c.len, c.pos, c.oldscore), (0, 10, 0, 10));
    assert_eq!(states, vec![State::Working(7)]);
}

#[test]
fn next_candidate_runs_to_the_end_without_a_match() {
    let old = b"aaaa";
    let new = b"bbbbbb";
    let sorted = [3, 2, 1, 0, 0];
    let c = next_candidate(&sorted, old, new, 0, 0, 0, 0, 0, &mut |_| {});
    assert_eq!((c.scan, c.len, c.oldscore), (6, 0, 0));
}
