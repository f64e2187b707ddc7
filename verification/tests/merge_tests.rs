use fingertips::error::FingertipsErrorKind;
use fingertips::index::InMemoryIndex;
use fingertips::merge::{merge_reversed, merge_streams, FileMerge, FinishStep, NSTREAMS};
use fingertips::read::IndexFileReader;
use fingertips::write::{write_index_to_tmp_file, IndexFileWriter};

fn posting(document: u32, positions: &[u32]) -> Vec<u8> {
    let mut bytes = document.to_le_bytes().to_vec();
    for p in positions {
        bytes.extend_from_slice(&p.to_le_bytes());
    }
    bytes
}

fn entry_bytes(term: &str, df: u32, offset: u64, nbytes: u64) -> Vec<u8> {
    let mut bytes = offset.to_le_bytes().to_vec();
    bytes.extend_from_slice(&nbytes.to_le_bytes());
    bytes.extend_from_slice(&df.to_le_bytes());
    bytes.extend_from_slice(&(term.len() as u32).to_le_bytes());
    bytes.extend_from_slice(term.as_bytes());
    bytes
}

fn file_of(document: usize, text: &str) -> Vec<u8> {
    write_index_to_tmp_file(InMemoryIndex::from_single_document(document, text.to_string()))
}

fn read_through(file: Vec<u8>) -> Vec<(String, u32, u64, u64, Vec<u8>)> {
    let mut reader = IndexFileReader::open_and_delete(file).unwrap();
    let mut all = Vec::new();
    loop {
        let (term, df, offset, nbytes) = match reader.peek() {
            None => break,
            Some(e) => (e.term.clone(), e.df, e.offset, e.nbytes),
        };
        let mut out = IndexFileWriter::new();
        reader.move_entry_to(&mut out).unwrap();
        let moved = out.finish();
        all.push((term, df, offset, nbytes, moved[8..].to_vec()));
    }
    all
}

fn names(n: usize) -> Vec<String> {
    (0..n).map(|i| format!("f{}", i)).collect()
}

#[test]
fn merge_of_two_files_with_a_shared_term() {
    let merged = merge_streams(vec![file_of(0, "alpha beta"), file_of(1, "beta gamma")]).unwrap();
    let mut expected = (8u64 + 32).to_le_bytes().to_vec();
    expected.extend(posting(0, &[0]));
    expected.extend(posting(0, &[1]));
    expected.extend(posting(1, &[0]));
    expected.extend(posting(1, &[1]));
    expected.extend(entry_bytes("alpha", 1, 0, 8));
    expected.extend(entry_bytes("beta", 2, 8, 16));
    expected.extend(entry_bytes("gamma", 1, 24, 8));
    assert_eq!(merged, expected);
}

#[test]
fn merge_takes_files_in_their_order() {
    let merged = merge_streams(vec![file_of(5, "w"), file_of(3, "w"), file_of(4, "w")]).unwrap();
    let entries = read_through(merged);
    assert_eq!(entries.len(), 1);
    assert_eq!(entries[0].1, 3);
    assert_eq!(entries[0].4, [posting(5, &[0]), posting(3, &[0]), posting(4, &[0])].concat());
}

#[test]
fn merge_of_no_file_is_an_empty_file() {
    assert_eq!(merge_streams(vec![]).unwrap(), 8u64.to_le_bytes().to_vec());
    let empty = IndexFileWriter::new().finish();
    assert_eq!(merge_streams(vec![empty.clone(), empty]).unwrap(), 8u64.to_le_bytes().to_vec());
}

#[test]
fn merge_of_one_file_counts_offsets_from_zero() {
    let file = file_of(0, "b a");
    let before = read_through(file.clone());
    let after = read_through(merge_streams(vec![file]).unwrap());
    assert_eq!(before.len(), 2);
    for (b, a) in before.iter().zip(after.iter()) {
        assert_eq!((&b.0, b.1, b.3, &b.4), (&a.0, a.1, a.3, &a.4));
        assert_eq!(b.2, a.2 + 8);
    }
}

#[test]
fn merge_preserves_totals() {
    let texts = ["a b c", "b c d d", "c", "e a a"];
    let files: Vec<Vec<u8>> = texts.iter().enumerate().map(|(i, t)| file_of(i, t)).collect();
    let inputs: Vec<_> = files.iter().map(|f| read_through(f.clone())).collect();
    let merged = read_through(merge_streams(files).unwrap());
    let terms: Vec<&str> = merged.iter().map(|e| e.0.as_str()).collect();
    assert_eq!(terms, vec!["a", "b", "c", "d", "e"]);
    for entry in &merged {
        let mut df = 0;
        let mut region = Vec::new();
        for input in &inputs {
            for e in input.iter().filter(|e| e.0 == entry.0) {
                df += e.1;
                region.extend_from_slice(&e.4);
            }
        }
        assert_eq!(entry.1, df);
        assert_eq!(entry.4, region);
        assert_eq!(entry.3, region.len() as u64);
    }
    assert_eq!(merged[0].2, 0);
    for i in 0..merged.len() - 1 {
        assert_eq!(merged[i].2 + merged[i].3, merged[i + 1].2);
    }
}

#[test]
fn merge_of_merges_is_the_merge_of_all() {
    let files: Vec<Vec<u8>> =
        ["x y", "y z", "z x", "w"].iter().enumerate().map(|(i, t)| file_of(i, t)).collect();
    let all = merge_streams(files.clone()).unwrap();
    let left = merge_streams(files[..2].to_vec()).unwrap();
    let right = merge_streams(files[2..].to_vec()).unwrap();
    assert_eq!(merge_streams(vec![left, right]).unwrap(), all);
}

#[test]
fn merge_adds_document_counts_modulo_two_to_the_32() {
    let mut files = Vec::new();
    for df in [0xFFFF_FFFFu32, 3] {
        let mut file = 8u64.to_le_bytes().to_vec();
        file.extend(entry_bytes("t", df, 8, 0));
        files.push(file);
    }
    let merged = read_through(merge_streams(files).unwrap());
    assert_eq!(merged[0].1, 2);
}

#[test]
fn merge_fails_as_the_file_that_cannot_be_read() {
    let good = file_of(0, "a b");
    let err = merge_streams(vec![good.clone(), vec![1, 2, 3]]).unwrap_err();
    assert_eq!(err.into_inner(), FingertipsErrorKind::Io);
    let mut corrupt = 8u64.to_le_bytes().to_vec();
    corrupt.extend_from_slice(&[0; 9]);
    let err = merge_streams(vec![good.clone(), corrupt]).unwrap_err();
    assert_eq!(err.into_inner(), FingertipsErrorKind::CorruptIndex);
    let mut short = 8u64.to_le_bytes().to_vec();
    short.extend(entry_bytes("b", 1, 8, 1000));
    let err = merge_streams(vec![good, short]).unwrap_err();
    assert_eq!(err.into_inner(), FingertipsErrorKind::Io);
}

#[test]
fn merge_reversed_takes_the_oldest_first() {
    let mut waiting = names(3);
    let to_merge = merge_reversed(&mut waiting);
    assert_eq!(to_merge, vec!["f2".to_string(), "f1".to_string(), "f0".to_string()]);
    assert!(waiting.is_empty());
    assert!(merge_reversed(&mut waiting).is_empty());
}

#[test]
fn cascade_trigger() {
    let mut merge = FileMerge::new(".");
    assert_eq!(merge.output_dir(), ".");
    for name in names(NSTREAMS - 1) {
        assert_eq!(merge.add_file(name), None);
    }
    assert_eq!(merge.stacks()[0], names(NSTREAMS - 1));
    let asked = merge.add_file("f7".to_string());
    assert_eq!(asked, Some(names(NSTREAMS)));
    assert_eq!(merge.stacks().len(), 1);
    assert!(merge.stacks()[0].is_empty());
    assert_eq!(merge.add_file("merged".to_string()), None);
    assert_eq!(merge.stacks().len(), 2);
    assert!(merge.stacks()[0].is_empty());
    assert_eq!(merge.stacks()[1], vec!["merged".to_string()]);
    assert_eq!(merge.add_file("f8".to_string()), None);
    assert_eq!(merge.stacks()[0], vec!["f8".to_string()]);
}

#[test]
fn cascade_climbs_a_level_for_each_full_one() {
    let mut merge = FileMerge::new("out");
    let mut merges = 0;
    for i in 0..64 {
        let mut step = merge.add_file(format!("f{}", i));
        while let Some(files) = step {
            assert_eq!(files.len(), NSTREAMS);
            merges += 1;
            step = merge.add_file(format!("m{}", merges));
        }
        for stack in merge.stacks() {
            assert!(stack.len() < NSTREAMS);
        }
    }
    assert_eq!(merges, 9);
    assert_eq!(merge.stacks().len(), 3);
    assert!(merge.stacks()[0].is_empty());
    assert!(merge.stacks()[1].is_empty());
    assert_eq!(merge.stacks()[2], vec!["m9".to_string()]);
}

#[test]
fn finish_of_an_empty_build_is_an_error() {
    let mut merge = FileMerge::new(".");
    let err = merge.finish(None).unwrap_err();
    assert_eq!(err.into_inner(), FingertipsErrorKind::EmptyCorpus);
}

#[test]
fn finish_with_one_file_renames_it() {
    let mut merge = FileMerge::new(".");
    assert_eq!(merge.add_file("only".to_string()), None);
    match merge.finish(None).unwrap() {
        FinishStep::Rename(file) => assert_eq!(file, "only"),
        FinishStep::Merge(_) => panic!("a single file needs no merge"),
    }
}

#[test]
fn finish_merges_what_is_left_oldest_first() {
    let mut merge = FileMerge::new(".");
    for i in 0..8 {
        assert!(merge.add_file(format!("a{}", i)).is_none() == (i < 7));
    }
    assert_eq!(merge.add_file("b0".to_string()), None);
    for i in 0..3 {
        assert_eq!(merge.add_file(format!("c{}", i)), None);
    }
    match merge.finish(None).unwrap() {
        FinishStep::Merge(files) => assert_eq!(files, vec!["b0", "c0", "c1", "c2"]),
        FinishStep::Rename(_) => panic!("four files are left"),
    }
    match merge.finish(Some("all".to_string())).unwrap() {
        FinishStep::Rename(file) => assert_eq!(file, "all"),
        FinishStep::Merge(_) => panic!("one file is left"),
    }
}

#[test]
fn finish_never_merges_more_than_nstreams() {
    let mut merge = FileMerge::new(".");
    let mut merges = 0;
    for i in 0..63 {
        let mut step = merge.add_file(format!("f{:02}", i));
        while let Some(_) = step {
            merges += 1;
            step = merge.add_file(format!("m{}", merges));
        }
    }
    assert_eq!(merge.stacks()[0].len(), 7);
    assert_eq!(merge.stacks()[1].len(), 7);
    let first = match merge.finish(None).unwrap() {
        FinishStep::Merge(files) => files,
        FinishStep::Rename(_) => panic!("fourteen files are left"),
    };
    assert_eq!(first, vec!["m7", "f56", "f57", "f58", "f59", "f60", "f61", "f62"]);
    let second = match merge.finish(Some("x".to_string())).unwrap() {
        FinishStep::Merge(files) => files,
        FinishStep::Rename(_) => panic!("seven files are left"),
    };
    assert_eq!(second, vec!["m1", "m2", "m3", "m4", "m5", "m6", "x"]);
    match merge.finish(Some("y".to_string())).unwrap() {
        FinishStep::Rename(file) => assert_eq!(file, "y"),
        FinishStep::Merge(_) => panic!("one file is left"),
    }
}

#[test]
fn whole_build_in_memory() {
    let texts = ["one two", "two three", "three four", "four five", "five six", "six seven",
        "seven eight", "eight nine", "nine ten", "ten one"];
    let mut merge = FileMerge::new(".");
    let mut store: Vec<(String, Vec<u8>)> = Vec::new();
    let mut count = 0;
    let mut run = |files: Vec<String>, store: &mut Vec<(String, Vec<u8>)>| {
        let inputs: Vec<Vec<u8>> = files
            .iter()
            .map(|f| {
                let at = store.iter().position(|(n, _)| n == f).unwrap();
                store.remove(at).1
            })
            .collect();
        count += 1;
        let name = format!("merged{}", count);
        store.push((name.clone(), merge_streams(inputs).unwrap()));
        name
    };
    for (id, text) in texts.iter().enumerate() {
        let name = format!("doc{}", id);
        store.push((name.clone(), file_of(id, text)));
        let mut step = merge.add_file(name);
        while let Some(files) = step {
            step = merge.add_file(run(files, &mut store));
        }
    }
    let mut merged = None;
    let last = loop {
        match merge.finish(merged.take()).unwrap() {
            FinishStep::Merge(files) => merged = Some(run(files, &mut store)),
            FinishStep::Rename(file) => break file,
        }
    };
    assert_eq!(store.len(), 1);
    assert_eq!(store[0].0, last);
    let mut whole = InMemoryIndex::new();
    for (id, text) in texts.iter().enumerate() {
        whole.merge(InMemoryIndex::from_single_document(id, text.to_string()));
    }
    let expected = read_through(write_index_to_tmp_file(whole));
    let built = read_through(store.remove(0).1);
    assert_eq!(built.len(), 10);
    for (b, e) in built.iter().zip(expected.iter()) {
        assert_eq!((&b.0, b.1, b.3, &b.4), (&e.0, e.1, e.3, &e.4));
    }
}
