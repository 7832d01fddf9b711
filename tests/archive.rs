use pfs_archive::checksum::file_crc;
use pfs_archive::compression::{deflate_blocks, inflate_blocks, MAX_BLOCK_SIZE};
use pfs_archive::directory::parse_pfs_directory;
use pfs_archive::names::{parse_filenames, write_filenames, FILENAMES_CRC_VALUE};
use pfs_archive::prelude::{
    ArchiveError, IArchive, IReadableArchive, IWritableArchive, ReadWriteArchive, ReadableArchive, WritableArchive,
};
use pfs_archive::readwrite::ReadWriteArchiveFile;
use pfs_archive::text::select_names;

fn le(b: &[u8], pos: usize) -> u32 {
    u32::from_le_bytes([b[pos], b[pos + 1], b[pos + 2], b[pos + 3]])
}

fn sorted(mut v: Vec<String>) -> Vec<String> {
    v.sort();
    v
}

/// Walks the block stream at `offset` and returns each block's inflate length.
fn stream_inflate_lengths(b: &[u8], offset: usize, size: usize) -> Vec<usize> {
    let mut out = Vec::new();
    let mut pos = offset;
    let mut total = 0usize;
    while total < size {
        let d = le(b, pos) as usize;
        let f = le(b, pos + 4) as usize;
        out.push(f);
        total += f;
        pos += 8 + d;
    }
    out
}

#[test]
fn file_crc_test() {
    assert_eq!(file_crc("innch0003.bmp"), 0xD32DA54A);
    assert_eq!(file_crc("innhe0004.bmp"), 0xD33312A3);
    assert_eq!(file_crc("beahe0204.bmp"), 0xD46B03A5);
}

#[test]
fn empty_archive_round_trip() {
    let a = WritableArchive::new();
    let bytes = a.save_to_bytes().unwrap();
    let entries = parse_pfs_directory(&bytes).unwrap();
    assert_eq!(entries.len(), 1);
    assert_eq!(entries[0].crc, FILENAMES_CRC_VALUE);
    let mut r = ReadableArchive::new();
    r.open_from_bytes(&bytes).unwrap();
    assert!(r.search(".*").unwrap().is_empty());
    let mut rw = ReadWriteArchive::new();
    rw.open_from_bytes(&bytes).unwrap();
    assert!(rw.search(".*").unwrap().is_empty());
}

#[test]
fn single_small_file() {
    let mut a = WritableArchive::new();
    a.set("hello.txt", b"hello world").unwrap();
    let bytes = a.save_to_bytes().unwrap();
    let entries = parse_pfs_directory(&bytes).unwrap();
    assert_eq!(entries.len(), 2);
    let file = entries.iter().find(|e| e.crc == file_crc("hello.txt")).unwrap();
    assert_eq!(file.size, 11);
    assert_eq!(stream_inflate_lengths(&bytes, file.offset as usize, 11), vec![11]);
    let table = entries.iter().find(|e| e.crc == FILENAMES_CRC_VALUE).unwrap();
    let expected_table = write_filenames(&["hello.txt".to_string()]);
    assert_eq!(table.size as usize, expected_table.len());
    assert_eq!(
        stream_inflate_lengths(&bytes, table.offset as usize, table.size as usize),
        vec![expected_table.len()]
    );
    let mut r = ReadableArchive::new();
    r.open_from_bytes(&bytes).unwrap();
    assert_eq!(r.get("hello.txt").unwrap(), b"hello world".to_vec());
}

#[test]
fn chunking_gives_three_blocks() {
    let data = vec![7u8; 20000];
    let blocks = deflate_blocks(&data).unwrap();
    let lengths: Vec<usize> = blocks.iter().map(|b| b.inflate_length).collect();
    assert_eq!(lengths, vec![8192, 8192, 3616]);
    assert_eq!(MAX_BLOCK_SIZE, 8192);
    assert_eq!(inflate_blocks(&blocks).unwrap(), data);
    let file = ReadWriteArchiveFile::deflate(&data).unwrap();
    assert_eq!(file.len(), 20000);
    assert_eq!(file.blocks.len(), 3);
    assert_eq!(file.inflate().unwrap(), data);

    let mut a = ReadWriteArchive::new();
    a.set("big.bin", &data).unwrap();
    let bytes = a.save_to_bytes().unwrap();
    let entries = parse_pfs_directory(&bytes).unwrap();
    let e = entries.iter().find(|e| e.crc == file_crc("big.bin")).unwrap();
    assert_eq!(e.size, 20000);
    assert_eq!(stream_inflate_lengths(&bytes, e.offset as usize, 20000), vec![8192, 8192, 3616]);
}

#[test]
fn exact_multiple_of_block_size() {
    let data: Vec<u8> = (0..16384u32).map(|i| (i % 251) as u8).collect();
    let blocks = deflate_blocks(&data).unwrap();
    let lengths: Vec<usize> = blocks.iter().map(|b| b.inflate_length).collect();
    assert_eq!(lengths, vec![8192, 8192]);
    assert!(deflate_blocks(&[]).unwrap().is_empty());
}

#[test]
fn version_rejection() {
    let a = WritableArchive::new();
    let mut bytes = a.save_to_bytes().unwrap();
    bytes[8..12].copy_from_slice(&0x00010000u32.to_le_bytes());
    let mut r = ReadableArchive::new();
    match r.open_from_bytes(&bytes) {
        Err(ArchiveError::WrongVersion { version }) => assert_eq!(version, 65536),
        other => panic!("unexpected: {:?}", other),
    }
    let mut rw = ReadWriteArchive::new();
    assert!(matches!(rw.open_from_bytes(&bytes), Err(ArchiveError::WrongVersion { version: 65536 })));
}

#[test]
fn truncated_input_is_a_parse_error() {
    let mut r = ReadableArchive::new();
    assert!(matches!(r.open_from_bytes(b"PFS"), Err(ArchiveError::Parse(_))));
    let mut bad_magic = WritableArchive::new().save_to_bytes().unwrap();
    bad_magic[4] = b'X';
    assert!(matches!(r.open_from_bytes(&bad_magic), Err(ArchiveError::Parse(_))));
    let mut a = WritableArchive::new();
    a.set("x", b"some bytes").unwrap();
    let bytes = a.save_to_bytes().unwrap();
    let cut = &bytes[..bytes.len() - 5];
    assert!(matches!(r.open_from_bytes(cut), Err(ArchiveError::Parse(_))));
}

#[test]
fn corrupt_block_is_a_decompression_error() {
    let mut a = ReadWriteArchive::new();
    a.set("x.txt", b"payload payload payload").unwrap();
    let mut bytes = a.save_to_bytes().unwrap();
    let entries = parse_pfs_directory(&bytes).unwrap();
    let e = entries.iter().find(|e| e.crc == file_crc("x.txt")).unwrap();
    let start = e.offset as usize + 8;
    bytes[start] = 0xff;
    bytes[start + 1] = 0xff;
    let mut r = ReadableArchive::new();
    r.open_from_bytes(&bytes).unwrap();
    assert!(matches!(r.get("x.txt"), Err(ArchiveError::Decompression)));
}

#[test]
fn case_insensitive_set_get() {
    let mut a = ReadWriteArchive::new();
    a.set("Foo", b"xyz").unwrap();
    assert!(a.contains("FOO").unwrap());
    assert_eq!(a.get("foo").unwrap(), b"xyz".to_vec());
    a.set("FOO", b"other").unwrap();
    assert_eq!(a.get("foo").unwrap(), b"other".to_vec());
    assert_eq!(a.search(".*").unwrap(), vec!["foo".to_string()]);
}

#[test]
fn case_insensitive_rename() {
    let mut a = ReadWriteArchive::new();
    a.set("A", b"x").unwrap();
    a.rename("a", "b").unwrap();
    assert!(a.contains("B").unwrap());
    assert!(!a.contains("a").unwrap());
    assert_eq!(a.get("b").unwrap(), b"x".to_vec());

    let mut w = WritableArchive::new();
    w.set("A", b"x").unwrap();
    w.rename("a", "b").unwrap();
    assert!(matches!(w.rename("a", "c"), Err(ArchiveError::SrcFileNotFound)));
    w.set("c", b"y").unwrap();
    assert!(matches!(w.rename("B", "C"), Err(ArchiveError::DestFileAlreadyExists)));
}

#[test]
fn copy_conflict() {
    let mut a = ReadWriteArchive::new();
    a.set("x", b"one").unwrap();
    a.set("y", b"two").unwrap();
    assert!(matches!(a.copy("x", "y"), Err(ArchiveError::DestFileAlreadyExists)));
    assert_eq!(a.get("x").unwrap(), b"one".to_vec());
    assert_eq!(a.get("y").unwrap(), b"two".to_vec());
    assert_eq!(sorted(a.search(".*").unwrap()), vec!["x".to_string(), "y".to_string()]);
    assert!(matches!(a.copy("missing", "z"), Err(ArchiveError::SrcFileNotFound)));
    a.copy("X", "Z").unwrap();
    assert_eq!(a.get("z").unwrap(), b"one".to_vec());

    let mut w = WritableArchive::new();
    w.set("x", b"one").unwrap();
    w.set("y", b"two").unwrap();
    assert!(matches!(w.copy("x", "y"), Err(ArchiveError::DestFileAlreadyExists)));
    w.copy("x", "z").unwrap();
}

#[test]
fn writable_set_refuses_existing_name() {
    let mut w = WritableArchive::new();
    w.set("Data.bin", b"1").unwrap();
    assert!(matches!(w.set("data.BIN", b"2"), Err(ArchiveError::DestFileAlreadyExists)));
}

#[test]
fn remove_files() {
    let mut a = ReadWriteArchive::new();
    a.set("a.txt", b"a").unwrap();
    a.remove("A.TXT").unwrap();
    assert!(!a.contains("a.txt").unwrap());
    assert!(matches!(a.remove("a.txt"), Err(ArchiveError::SrcFileNotFound)));
    assert!(matches!(a.get("a.txt"), Err(ArchiveError::SrcFileNotFound)));
    let mut w = WritableArchive::new();
    assert!(matches!(w.remove("a.txt"), Err(ArchiveError::SrcFileNotFound)));
}

#[test]
fn regex_search() {
    let mut a = ReadWriteArchive::new();
    a.set("foo.bmp", b"1").unwrap();
    a.set("bar.bmp", b"2").unwrap();
    a.set("baz.txt", b"3").unwrap();
    assert_eq!(sorted(a.search("\\.bmp$").unwrap()), vec!["bar.bmp".to_string(), "foo.bmp".to_string()]);
    assert!(matches!(a.search("("), Err(ArchiveError::BadRegex(_))));
    let bytes = a.save_to_bytes().unwrap();
    let mut r = ReadableArchive::new();
    r.open_from_bytes(&bytes).unwrap();
    assert_eq!(sorted(r.search("\\.bmp$").unwrap()), vec!["bar.bmp".to_string(), "foo.bmp".to_string()]);
    assert!(matches!(r.search("["), Err(ArchiveError::BadRegex(_))));
}

#[test]
fn select_names_keeps_flagged() {
    let names = vec!["a".to_string(), "b".to_string(), "c".to_string()];
    assert_eq!(select_names(&names, &vec![true, false, true]), vec!["a".to_string(), "c".to_string()]);
    assert!(select_names(&names, &vec![false, false, false]).is_empty());
}

#[test]
fn round_trip_writable_and_readwrite() {
    let big: Vec<u8> = (0..30000u32).map(|i| (i * 7 % 256) as u8).collect();
    let mut w = WritableArchive::new();
    w.set("One.txt", b"first").unwrap();
    w.set("two.bin", &big).unwrap();
    w.set("empty", b"").unwrap();
    let bytes = w.save_to_bytes().unwrap();

    let mut rw = ReadWriteArchive::new();
    rw.open_from_bytes(&bytes).unwrap();
    assert_eq!(sorted(rw.search(".*").unwrap()), vec!["empty".to_string(), "one.txt".to_string(), "two.bin".to_string()]);
    assert_eq!(rw.get("one.txt").unwrap(), b"first".to_vec());
    assert_eq!(rw.get("two.bin").unwrap(), big);
    assert_eq!(rw.get("empty").unwrap(), Vec::<u8>::new());

    let again = rw.save_to_bytes().unwrap();
    let mut r = ReadableArchive::new();
    r.open_from_bytes(&again).unwrap();
    assert_eq!(r.get("TWO.BIN").unwrap(), big);
    assert_eq!(r.get("one.txt").unwrap(), b"first".to_vec());
    r.close();
    assert!(!r.contains("one.txt").unwrap());
}

#[test]
fn readwrite_save_keeps_compressed_bytes() {
    let mut w = WritableArchive::new();
    let data: Vec<u8> = (0..10000u32).map(|i| (i % 13) as u8).collect();
    w.set("f.dat", &data).unwrap();
    let first = w.save_to_bytes().unwrap();
    let mut rw = ReadWriteArchive::new();
    rw.open_from_bytes(&first).unwrap();
    let second = rw.save_to_bytes().unwrap();
    let crc = file_crc("f.dat");
    let e1 = *parse_pfs_directory(&first).unwrap().iter().find(|e| e.crc == crc).unwrap();
    let e2 = *parse_pfs_directory(&second).unwrap().iter().find(|e| e.crc == crc).unwrap();
    let len1 = stream_inflate_lengths(&first, e1.offset as usize, e1.size as usize).len();
    assert_eq!(len1, 2);
    let end1 = {
        let mut p = e1.offset as usize;
        for _ in 0..len1 {
            p += 8 + le(&first, p) as usize;
        }
        p
    };
    let stream1 = &first[e1.offset as usize..end1];
    let stream2 = &second[e2.offset as usize..e2.offset as usize + stream1.len()];
    assert_eq!(stream1, stream2);
}

#[test]
fn header_layout() {
    let mut a = WritableArchive::new();
    a.set("h.txt", b"header test").unwrap();
    let bytes = a.save_to_bytes().unwrap();
    let dir = le(&bytes, 0) as usize;
    assert_eq!(&bytes[4..8], b"PFS ");
    assert_eq!(le(&bytes, 8), 131072);
    let count = le(&bytes, dir) as usize;
    assert_eq!(count, 2);
    assert_eq!(bytes.len(), dir + 4 + 12 * count);
    let entries = parse_pfs_directory(&bytes).unwrap();
    let e = entries.iter().find(|e| e.crc == file_crc("h.txt")).unwrap();
    assert_eq!(e.offset, 12);
}

#[test]
fn crc_uses_lowercased_name() {
    let mut a = ReadWriteArchive::new();
    a.set("MiXeD.BMP", b"data").unwrap();
    let bytes = a.save_to_bytes().unwrap();
    let entries = parse_pfs_directory(&bytes).unwrap();
    assert!(entries.iter().any(|e| e.crc == file_crc("mixed.bmp")));
    assert!(!entries.iter().any(|e| e.crc == file_crc("MiXeD.BMP")));
}

#[test]
fn filename_table_encoding() {
    let names = vec!["ab".to_string(), "c".to_string()];
    let table = write_filenames(&names);
    assert_eq!(table, vec![2, 0, 0, 0, 3, 0, 0, 0, b'a', b'b', 0, 2, 0, 0, 0, b'c', 0]);
    assert_eq!(parse_filenames(&table).unwrap(), names);
    assert!(matches!(parse_filenames(&table[..table.len() - 3]), Err(ArchiveError::Parse(_))));
    assert!(matches!(parse_filenames(&[1, 0]), Err(ArchiveError::Parse(_))));
    let bad = vec![1, 0, 0, 0, 3, 0, 0, 0, 0xff, 0xfe, 0];
    assert!(matches!(parse_filenames(&bad), Err(ArchiveError::Utf8(_))));
}

#[test]
fn error_messages() {
    assert_eq!(ArchiveError::SrcFileNotFound.message(), "Source file doesn't exist in archive");
    assert_eq!(ArchiveError::Compression.message(), "Compression failed");
}

#[test]
fn get_path_joins_directory() {
    assert_eq!(pfs_archive::paths::get_path("a.bmp", &Some("out".to_string())), "out/a.bmp");
    assert_eq!(pfs_archive::paths::get_path("a.bmp", &None), "a.bmp");
}

#[test]
fn table_names_are_lowercased_on_open() {
    let data = b"mixed case payload".to_vec();
    let blocks = deflate_blocks(&data).unwrap();
    let mut stream = Vec::new();
    pfs_archive::emit::put_blocks(&mut stream, &blocks);
    let bytes = pfs_archive::emit::save_streams(&vec!["Foo.BMP".to_string()], &vec![data.len()], vec![stream]).unwrap();
    let table = parse_pfs_directory(&bytes).unwrap();
    assert!(table.iter().any(|e| e.crc == file_crc("foo.bmp")));
    let mut r = ReadableArchive::new();
    r.open_from_bytes(&bytes).unwrap();
    assert_eq!(r.search(".*").unwrap(), vec!["foo.bmp".to_string()]);
    assert_eq!(r.get("FOO.bmp").unwrap(), data);
    let mut rw = ReadWriteArchive::new();
    rw.open_from_bytes(&bytes).unwrap();
    assert_eq!(rw.search(".*").unwrap(), vec!["foo.bmp".to_string()]);
}

#[test]
fn entry_offset_past_end_is_a_parse_error() {
    let mut b = Vec::new();
    b.extend_from_slice(&12u32.to_le_bytes());
    b.extend_from_slice(b"PFS ");
    b.extend_from_slice(&131072u32.to_le_bytes());
    b.extend_from_slice(&1u32.to_le_bytes());
    b.extend_from_slice(&5u32.to_le_bytes());
    b.extend_from_slice(&1000u32.to_le_bytes());
    b.extend_from_slice(&0u32.to_le_bytes());
    let mut r = ReadableArchive::new();
    assert!(matches!(r.open_from_bytes(&b), Err(ArchiveError::Parse(_))));
    let mut rw = ReadWriteArchive::new();
    assert!(matches!(rw.open_from_bytes(&b), Err(ArchiveError::Parse(_))));
}

#[test]
fn block_shorter_than_its_inflate_length_fails() {
    let mut a = ReadWriteArchive::new();
    a.set("x", b"hello world").unwrap();
    let mut bytes = a.save_to_bytes().unwrap();
    let entries = parse_pfs_directory(&bytes).unwrap();
    let i = entries.iter().position(|e| e.crc == file_crc("x")).unwrap();
    let off = entries[i].offset as usize;
    bytes[off + 4..off + 8].copy_from_slice(&12u32.to_le_bytes());
    let dir = le(&bytes, 0) as usize;
    let size_at = dir + 4 + 12 * i + 8;
    bytes[size_at..size_at + 4].copy_from_slice(&12u32.to_le_bytes());
    let mut r = ReadableArchive::new();
    r.open_from_bytes(&bytes).unwrap();
    assert!(matches!(r.get("x"), Err(ArchiveError::Decompression)));
    let mut rw = ReadWriteArchive::new();
    rw.open_from_bytes(&bytes).unwrap();
    assert!(matches!(rw.get("x"), Err(ArchiveError::Decompression)));
}
