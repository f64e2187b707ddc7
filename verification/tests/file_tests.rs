use fingertips::error::FingertipsErrorKind;
use fingertips::index::InMemoryIndex;
use fingertips::read::IndexFileReader;
use fingertips::write::{write_index_to_tmp_file, IndexFileWriter};

fn posting(document: u32, positions: &[u32]) -> Vec<u8> {
    let mut bytes = document.to_le_bytes().to_vec();
    for p in positions {
        bytes.extend_from_slice(&p.to_le_bytes());
    }
    bytes
}

fn entry_bytes(term: &str, df: u32, offset: u64, nbytes: u64) -> Vec<u8> {
    let mut bytes = offset.to_le_bytes().to_vec();
    bytes.extend_from_slice(&nbytes.to_le_bytes());
    bytes.extend_from_slice(&df.to_le_bytes());
    bytes.extend_from_slice(&(term.len() as u32).to_le_bytes());
    bytes.extend_from_slice(term.as_bytes());
    bytes
}

/// Reads a file through: each entry as it stands in the contents, with the
/// bytes that moving it hands on.
fn read_through(file: Vec<u8>) -> Vec<(String, u32, u64, u64, Vec<u8>)> {
    let mut reader = IndexFileReader::open_and_delete(file).unwrap();
    let mut all = Vec::new();
    loop {
        let (term, df, offset, nbytes) = match reader.peek() {
            None => break,
            Some(e) => (e.term.clone(), e.df, e.offset, e.nbytes),
        };
        let mut out = IndexFileWriter::new();
        reader.move_entry_to(&mut out).unwrap();
        let moved = out.finish();
        all.push((term, df, offset, nbytes, moved[8..].to_vec()));
    }
    all
}

#[test]
fn empty_writer_gives_header_alone() {
    let file = IndexFileWriter::new().finish();
    assert_eq!(file, 8u64.to_le_bytes().to_vec());
}

#[test]
fn writer_lays_out_header_main_and_contents() {
    let mut writer = IndexFileWriter::new();
    assert_eq!(writer.offset(), 8);
    writer.write_main(&[1, 2, 3]);
    assert_eq!(writer.offset(), 11);
    writer.write_contents_entry("ab".to_string(), 5, 8, 3);
    writer.write_main(&[4, 5]);
    writer.write_contents_entry("c".to_string(), 0x0102_0304, 11, 2);
    assert_eq!(writer.offset(), 13);
    let file = writer.finish();
    let mut expected = vec![13, 0, 0, 0, 0, 0, 0, 0, 1, 2, 3, 4, 5];
    expected.extend_from_slice(&[8, 0, 0, 0, 0, 0, 0, 0]);
    expected.extend_from_slice(&[3, 0, 0, 0, 0, 0, 0, 0]);
    expected.extend_from_slice(&[5, 0, 0, 0]);
    expected.extend_from_slice(&[2, 0, 0, 0]);
    expected.extend_from_slice(b"ab");
    expected.extend_from_slice(&[11, 0, 0, 0, 0, 0, 0, 0]);
    expected.extend_from_slice(&[2, 0, 0, 0, 0, 0, 0, 0]);
    expected.extend_from_slice(&[4, 3, 2, 1]);
    expected.extend_from_slice(&[1, 0, 0, 0]);
    expected.extend_from_slice(b"c");
    assert_eq!(file, expected);
}

#[test]
fn writer_takes_entries_as_they_come() {
    let mut writer = IndexFileWriter::new();
    writer.write_contents_entry("zz".to_string(), 1, 1000, 77);
    writer.write_contents_entry("aa".to_string(), 2, 3, 0);
    let file = writer.finish();
    let mut expected = 8u64.to_le_bytes().to_vec();
    expected.extend(entry_bytes("zz", 1, 1000, 77));
    expected.extend(entry_bytes("aa", 2, 3, 0));
    assert_eq!(file, expected);
}

#[test]
fn single_document_three_tokens() {
    let index = InMemoryIndex::from_single_document(0, "The quick brown fox".to_string());
    let file = write_index_to_tmp_file(index);
    let mut expected = 40u64.to_le_bytes().to_vec();
    expected.extend(posting(0, &[2]));
    expected.extend(posting(0, &[3]));
    expected.extend(posting(0, &[1]));
    expected.extend(posting(0, &[0]));
    expected.extend(entry_bytes("brown", 1, 8, 8));
    expected.extend(entry_bytes("fox", 1, 16, 8));
    expected.extend(entry_bytes("quick", 1, 24, 8));
    expected.extend(entry_bytes("the", 1, 32, 8));
    assert_eq!(file, expected);
}

#[test]
fn single_document_round_trip() {
    let text = "It was the best of times, it was the worst of times";
    let index = InMemoryIndex::from_single_document(9, text.to_string());
    let entries = read_through(write_index_to_tmp_file(index));
    let expected = vec![
        ("best".to_string(), 1, 8, 8, posting(9, &[3])),
        ("it".to_string(), 1, 16, 12, posting(9, &[0, 6])),
        ("of".to_string(), 1, 28, 12, posting(9, &[4, 10])),
        ("the".to_string(), 1, 40, 12, posting(9, &[2, 8])),
        ("times".to_string(), 1, 52, 12, posting(9, &[5, 11])),
        ("was".to_string(), 1, 64, 12, posting(9, &[1, 7])),
        ("worst".to_string(), 1, 76, 8, posting(9, &[9])),
    ];
    assert_eq!(entries, expected);
}

#[test]
fn written_file_is_contiguous_and_ascending() {
    let mut index = InMemoryIndex::new();
    for (id, text) in ["b a c a", "c d", "a e e e"].iter().enumerate() {
        index.merge(InMemoryIndex::from_single_document(id, text.to_string()));
    }
    let file = write_index_to_tmp_file(index);
    let header = u64::from_le_bytes(file[0..8].try_into().unwrap());
    let entries = read_through(file);
    assert_eq!(entries.len(), 5);
    assert_eq!(entries[0].2, 8);
    for i in 0..entries.len() - 1 {
        assert!(entries[i].0.as_bytes() < entries[i + 1].0.as_bytes());
        assert_eq!(entries[i].2 + entries[i].3, entries[i + 1].2);
    }
    let last = entries.last().unwrap();
    assert_eq!(last.2 + last.3, header);
    let dfs: Vec<u32> = entries.iter().map(|e| e.1).collect();
    assert_eq!(dfs, vec![2, 1, 2, 1, 1]);
    assert_eq!(entries[0].4, [posting(0, &[1, 3]), posting(2, &[0])].concat());
}

#[test]
fn two_documents_one_shared_term() {
    let mut index = InMemoryIndex::from_single_document(0, "alpha beta".to_string());
    index.merge(InMemoryIndex::from_single_document(1, "beta gamma".to_string()));
    let entries = read_through(write_index_to_tmp_file(index));
    assert_eq!(entries.len(), 3);
    assert_eq!(entries[1].0, "beta");
    assert_eq!(entries[1].1, 2);
    assert_eq!(entries[1].4, [posting(0, &[1]), posting(1, &[0])].concat());
}

#[test]
fn reader_reads_one_entry_ahead() {
    let index = InMemoryIndex::from_single_document(2, "b a".to_string());
    let mut reader = IndexFileReader::open_and_delete(write_index_to_tmp_file(index)).unwrap();
    assert!(reader.is_at("a"));
    assert!(!reader.is_at("b"));
    assert!(!reader.is_at(""));
    let first = reader.peek().unwrap();
    assert_eq!(first.term, "a");
    assert_eq!((first.df, first.offset, first.nbytes), (1, 8, 8));
    let mut out = IndexFileWriter::new();
    assert!(reader.move_entry_to(&mut out).is_ok());
    assert!(reader.is_at("b"));
    assert!(reader.move_entry_to(&mut out).is_ok());
    assert!(reader.peek().is_none());
    assert!(!reader.is_at("b"));
    let moved = out.finish();
    assert_eq!(moved[8..], [posting(2, &[1]), posting(2, &[0])].concat());
}

#[test]
fn moving_without_entry_fails() {
    let mut reader = IndexFileReader::open_and_delete(IndexFileWriter::new().finish()).unwrap();
    assert!(reader.peek().is_none());
    let mut out = IndexFileWriter::new();
    let err = reader.move_entry_to(&mut out).unwrap_err();
    assert_eq!(err.into_inner(), FingertipsErrorKind::NoEntryToMove);
    assert_eq!(out.finish(), 8u64.to_le_bytes().to_vec());
}

#[test]
fn short_header_is_an_io_error() {
    for len in 0..8 {
        let err = IndexFileReader::open_and_delete(vec![0; len]).err().unwrap();
        assert_eq!(err.into_inner(), FingertipsErrorKind::Io);
    }
}

#[test]
fn contents_beyond_the_end_are_empty() {
    let mut file = 1000u64.to_le_bytes().to_vec();
    file.extend_from_slice(&[1, 2, 3]);
    let reader = IndexFileReader::open_and_delete(file).unwrap();
    assert!(reader.peek().is_none());
    let reader = IndexFileReader::open_and_delete(u64::MAX.to_le_bytes().to_vec()).unwrap();
    assert!(reader.peek().is_none());
}

#[test]
fn fewer_than_eight_bytes_end_the_contents() {
    let mut file = 8u64.to_le_bytes().to_vec();
    file.extend_from_slice(&[1, 2, 3, 4, 5, 6, 7]);
    let reader = IndexFileReader::open_and_delete(file).unwrap();
    assert!(reader.peek().is_none());
}

#[test]
fn entry_cut_short_is_corrupt() {
    let whole = entry_bytes("term", 1, 8, 0);
    for cut in 8..whole.len() {
        let mut file = 8u64.to_le_bytes().to_vec();
        file.extend_from_slice(&whole[..cut]);
        let err = IndexFileReader::open_and_delete(file).err().unwrap();
        assert_eq!(err.into_inner(), FingertipsErrorKind::CorruptIndex);
    }
    let mut file = 8u64.to_le_bytes().to_vec();
    file.extend_from_slice(&whole);
    assert!(IndexFileReader::open_and_delete(file).is_ok());
}

#[test]
fn term_that_is_not_utf8_is_corrupt() {
    let mut file = 8u64.to_le_bytes().to_vec();
    file.extend_from_slice(&8u64.to_le_bytes());
    file.extend_from_slice(&0u64.to_le_bytes());
    file.extend_from_slice(&1u32.to_le_bytes());
    file.extend_from_slice(&2u32.to_le_bytes());
    file.extend_from_slice(&[0xC3, 0x28]);
    let err = IndexFileReader::open_and_delete(file).err().unwrap();
    assert_eq!(err.into_inner(), FingertipsErrorKind::CorruptIndex);
}

#[test]
fn read_entry_says_where_the_next_begins() {
    let mut data = vec![0xAA; 3];
    data.extend(entry_bytes("héllo", 7, 0x0102_0304_0506_0708, 99));
    data.extend(entry_bytes("", 0, 1, 2));
    let (entry, next) = IndexFileReader::read_entry(&data, 3).unwrap().unwrap();
    assert_eq!(entry.term, "héllo");
    assert_eq!((entry.df, entry.offset, entry.nbytes), (7, 0x0102_0304_0506_0708, 99));
    assert_eq!(next, 3 + 24 + 6);
    let (entry, next) = IndexFileReader::read_entry(&data, next).unwrap().unwrap();
    assert_eq!(entry.term, "");
    assert_eq!((entry.df, entry.offset, entry.nbytes), (0, 1, 2));
    assert_eq!(next, data.len());
    assert!(IndexFileReader::read_entry(&data, next).unwrap().is_none());
    assert!(IndexFileReader::read_entry(&data, next + 10).unwrap().is_none());
}

#[test]
fn main_part_cut_short_is_an_io_error() {
    let mut file = 10u64.to_le_bytes().to_vec();
    file.extend_from_slice(&[1, 2]);
    file.extend(entry_bytes("a", 1, 8, 100));
    let mut reader = IndexFileReader::open_and_delete(file).unwrap();
    assert!(reader.is_at("a"));
    let mut out = IndexFileWriter::new();
    let err = reader.move_entry_to(&mut out).unwrap_err();
    assert_eq!(err.into_inner(), FingertipsErrorKind::Io);
    assert!(reader.is_at("a"));
    assert_eq!(out.finish(), 8u64.to_le_bytes().to_vec());
}

#[test]
fn corrupt_entry_behind_a_sound_one_fails_the_move() {
    let mut file = 10u64.to_le_bytes().to_vec();
    file.extend_from_slice(&[1, 2]);
    file.extend(entry_bytes("a", 1, 8, 2));
    file.extend_from_slice(&[0; 10]);
    let mut reader = IndexFileReader::open_and_delete(file).unwrap();
    let mut out = IndexFileWriter::new();
    let err = reader.move_entry_to(&mut out).unwrap_err();
    assert_eq!(err.into_inner(), FingertipsErrorKind::CorruptIndex);
    let mut expected = 10u64.to_le_bytes().to_vec();
    expected.extend_from_slice(&[1, 2]);
    assert_eq!(out.finish(), expected);
}

#[test]
fn reader_takes_the_main_part_in_order_whatever_the_offsets_say() {
    let mut file = 12u64.to_le_bytes().to_vec();
    file.extend_from_slice(&[1, 2, 3, 4]);
    file.extend(entry_bytes("a", 1, 500, 3));
    file.extend(entry_bytes("b", 1, 0, 1));
    let entries = read_through(file);
    assert_eq!(entries[0].4, vec![1, 2, 3]);
    assert_eq!(entries[1].4, vec![4]);
    assert_eq!(entries[0].2, 500);
}

#[test]
fn entry_beyond_the_platform_limit_fails_the_move() {
    let mut file = 8u64.to_le_bytes().to_vec();
    file.extend(entry_bytes("a", 1, 8, u64::MAX));
    let mut reader = IndexFileReader::open_and_delete(file).unwrap();
    assert_eq!(reader.peek().unwrap().nbytes, u64::MAX);
    let mut out = IndexFileWriter::new();
    let err = reader.move_entry_to(&mut out).unwrap_err();
    let expected = if (usize::MAX as u64) < u64::MAX {
        FingertipsErrorKind::PlatformLimitExceeded
    } else {
        FingertipsErrorKind::Io
    };
    assert_eq!(err.into_inner(), expected);
    assert!(reader.is_at("a"));
}

#[test]
fn terms_may_be_empty_or_long() {
    let long = "x".repeat(70_000);
    let mut writer = IndexFileWriter::new();
    writer.write_contents_entry(String::new(), 1, 8, 0);
    writer.write_contents_entry(long.clone(), 2, 8, 0);
    let entries = read_through(writer.finish());
    assert_eq!(entries.len(), 2);
    assert_eq!(entries[0].0, "");
    assert_eq!(entries[1].0, long);
    assert_eq!(entries[1].1, 2);
}
