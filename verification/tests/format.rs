use ddelta::format::{
    is_magic, read_entry, read_header, write_ending, write_entry, write_header, EntryHeader,
    DDELTA_MAGIC, ENTRY_LEN, HEADER_LEN,
};
use ddelta::Error;

#[test]
fn magic_is_ddelta40() {
    assert_eq!(&DDELTA_MAGIC, b"DDELTA40");
    assert_eq!(DDELTA_MAGIC, [0x44, 0x44, 0x45, 0x4C, 0x54, 0x41, 0x34, 0x30]);
    assert!(is_magic(b"DDELTA40"));
    assert!(!is_magic(b"DDELTA41"));
    assert!(!is_magic(b"dDELTA40"));
}

#[test]
fn header_is_magic_and_big_endian_size() {
    let mut patch = vec![0xAA];
    write_header(&mut patch, 0x01_02_03_04_05_06_07_08);
    assert_eq!(patch.len(), 1 + HEADER_LEN);
    assert_eq!(&patch[1..9], b"DDELTA40");
    assert_eq!(&patch[9..17], &[1, 2, 3, 4, 5, 6, 7, 8]);
}

#[test]
fn header_of_thirteen_bytes() {
    let mut patch = Vec::new();
    write_header(&mut patch, 13);
    assert_eq!(patch, b"DDELTA40\0\0\0\0\0\0\0\x0d");
}

#[test]
fn entry_is_three_big_endian_numbers() {
    let mut patch = Vec::new();
    write_entry(&mut patch, EntryHeader { diff: 0x0102, extra: 0xF000_0000_0000_0001, seek: -2 });
    assert_eq!(patch.len(), ENTRY_LEN);
    assert_eq!(&patch[0..8], &[0, 0, 0, 0, 0, 0, 1, 2]);
    assert_eq!(&patch[8..16], &[0xF0, 0, 0, 0, 0, 0, 0, 1]);
    assert_eq!(&patch[16..24], &[0xFF, 0xFF, 0xFF, 0xFF, 0xFF, 0xFF, 0xFF, 0xFE]);
}

#[test]
fn entry_with_extreme_seeks() {
    let mut patch = Vec::new();
    write_entry(&mut patch, EntryHeader { diff: u64::MAX, extra: 0, seek: i64::MIN });
    write_entry(&mut patch, EntryHeader { diff: 0, extra: u64::MAX, seek: i64::MAX });
    assert_eq!(&patch[0..8], &[0xFF; 8]);
    assert_eq!(&patch[16..24], &[0x80, 0, 0, 0, 0, 0, 0, 0]);
    assert_eq!(&patch[40..48], &[0x7F, 0xFF, 0xFF, 0xFF, 0xFF, 0xFF, 0xFF, 0xFF]);
    assert_eq!(
        read_entry(&patch, 0),
        Ok(EntryHeader { diff: u64::MAX, extra: 0, seek: i64::MIN })
    );
    assert_eq!(
        read_entry(&patch, 24),
        Ok(EntryHeader { diff: 0, extra: u64::MAX, seek: i64::MAX })
    );
}

#[test]
fn ending_is_twenty_four_zeros() {
    let mut patch = Vec::new();
    write_ending(&mut patch);
    assert_eq!(patch, vec![0u8; 24]);
}

#[test]
fn read_header_gives_magic_and_size() {
    let patch = b"..DDELTA41\x01\x02\x03\x04\x05\x06\x07\x08";
    let header = read_header(patch, 2).unwrap();
    assert_eq!(&header.magic, b"DDELTA41");
    assert_eq!(header.new_file_size, 0x0102030405060708);
}

#[test]
fn read_header_needs_sixteen_bytes() {
    let patch = b"DDELTA40\0\0\0\0\0\0\0";
    assert_eq!(read_header(patch, 0).unwrap_err(), Error::PatchTruncated);
    assert_eq!(read_header(b"", 0).unwrap_err(), Error::PatchTruncated);
    assert_eq!(read_header(b"DDELTA40\0\0\0\0\0\0\0\0", 1).unwrap_err(), Error::PatchTruncated);
    assert_eq!(read_header(b"DDELTA40\0\0\0\0\0\0\0\0", 17).unwrap_err(), Error::PatchTruncated);
    assert_eq!(
        read_header(b"DDELTA40\0\0\0\0\0\0\0\0", usize::MAX).unwrap_err(),
        Error::PatchTruncated
    );
}

#[test]
fn read_entry_gives_back_what_was_written() {
    let entry = EntryHeader { diff: 7, extra: 1 << 40, seek: -123_456_789_012 };
    let mut patch = vec![1, 2, 3];
    write_entry(&mut patch, entry);
    assert_eq!(read_entry(&patch, 3), Ok(entry));
    assert_eq!(read_entry(&patch, 4), Err(Error::PatchTruncated));
    assert_eq!(read_entry(&patch[..26], 3), Err(Error::PatchTruncated));
}
