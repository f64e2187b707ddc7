use fingertips::error::{FingertipsError, FingertipsErrorKind};
use fingertips::index::InMemoryIndex;
use fingertips::merge::MERGED_FILENAME;
use fingertips::stages::{first_error, InMemoryMerger, Indexer};

#[test]
fn indexer_numbers_documents_from_zero() {
    let mut indexer = Indexer::new();
    assert_eq!(indexer.next_id(), 0);
    let first = indexer.index("a".to_string());
    assert_eq!(first.get("a"), Some(&vec![vec![0, 0, 0, 0, 0, 0, 0, 0]]));
    assert_eq!(indexer.next_id(), 1);
    let second = indexer.index("b a".to_string());
    assert_eq!(second.get("a"), Some(&vec![vec![1, 0, 0, 0, 1, 0, 0, 0]]));
    assert_eq!(second.get("b"), Some(&vec![vec![1, 0, 0, 0, 0, 0, 0, 0]]));
    assert_eq!(indexer.next_id(), 2);
}

#[test]
fn merger_keeps_small_indexes() {
    let mut indexer = Indexer::new();
    let mut merger = InMemoryMerger::new();
    assert_eq!(merger.word_count(), 0);
    assert!(merger.add(indexer.index("x y".to_string())).is_none());
    assert!(merger.add(indexer.index("y z".to_string())).is_none());
    assert_eq!(merger.word_count(), 4);
    let rest = merger.finish().unwrap();
    assert_eq!(rest.word_count, 4);
    assert_eq!(rest.get("y"), Some(&vec![vec![0, 0, 0, 0, 1, 0, 0, 0], vec![1, 0, 0, 0, 0, 0, 0, 0]]));
}

#[test]
fn merger_hands_out_large_indexes() {
    let mut merger = InMemoryMerger::new();
    let mut big = InMemoryIndex::from_single_document(0, "w".to_string());
    big.word_count = 100_000_000;
    assert!(merger.add(big).is_none());
    assert_eq!(merger.word_count(), 100_000_000);
    let large = merger.add(InMemoryIndex::from_single_document(1, "w v".to_string())).unwrap();
    assert_eq!(large.word_count, 100_000_002);
    assert_eq!(large.len(), 2);
    assert_eq!(merger.word_count(), 0);
    assert!(merger.finish().is_none());
}

#[test]
fn large_accumulator_flushes_twice() {
    let mut merger = InMemoryMerger::new();
    let mut flushed = 0;
    for id in 0..5 {
        let mut index = InMemoryIndex::from_single_document(id, "w".to_string());
        index.word_count = 60_000_000;
        if merger.add(index).is_some() {
            flushed += 1;
        }
    }
    assert_eq!(flushed, 2);
    assert_eq!(merger.finish().unwrap().word_count, 60_000_000);
}

#[test]
fn merger_without_words_has_nothing_to_hand_out() {
    let mut merger = InMemoryMerger::new();
    assert!(merger.add(InMemoryIndex::from_single_document(0, "...".to_string())).is_none());
    assert!(merger.finish().is_none());
}

#[test]
fn first_error_goes_by_stage() {
    let ok: Result<(), u8> = Ok(());
    assert_eq!(first_error(ok, ok, ok), Ok(()));
    assert_eq!(first_error(Err(1), Err(2), Err(3)), Err(1));
    assert_eq!(first_error(ok, Err(2), Err(3)), Err(2));
    assert_eq!(first_error(ok, ok, Err(3)), Err(3));
    assert_eq!(first_error(Err(1), ok, Err(3)), Err(1));
    assert_eq!(first_error(Err(1), ok, ok), Err(1));
}

#[test]
fn errors_say_what_they_mean() {
    assert_eq!(
        FingertipsErrorKind::EmptyCorpus.message(),
        "no documents were parsed or none contained any words"
    );
    assert_eq!(
        FingertipsErrorKind::PlatformLimitExceeded.message(),
        "computer not big enough to hold index entry"
    );
    assert_eq!(FingertipsErrorKind::NoEntryToMove.message(), "no entry to move");
    assert_eq!(
        FingertipsErrorKind::Io.message(),
        "a read ran past the end of an index file"
    );
    assert_eq!(
        FingertipsError::new(FingertipsErrorKind::CorruptIndex).message(),
        "an entry of an index file is cut short or its term is not UTF-8"
    );
}

#[test]
fn index_is_called_index_dat() {
    assert_eq!(MERGED_FILENAME, "index.dat");
}
