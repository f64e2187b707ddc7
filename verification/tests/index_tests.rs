use fingertips::index::{split_words, tokenize, InMemoryIndex, REASONABLE_SIZE};

fn strings(words: &[&str]) -> Vec<String> {
    words.iter().map(|w| w.to_string()).collect()
}

fn posting(document: u32, positions: &[u32]) -> Vec<u8> {
    let mut bytes = document.to_le_bytes().to_vec();
    for p in positions {
        bytes.extend_from_slice(&p.to_le_bytes());
    }
    bytes
}

#[test]
fn tokenize_splits_on_runs_of_other_characters() {
    assert_eq!(tokenize("the quick,  brown--fox!"), strings(&["the", "quick", "brown", "fox"]));
}

#[test]
fn tokenize_drops_empty_tokens() {
    assert_eq!(tokenize("  ...  "), Vec::<String>::new());
    assert_eq!(tokenize(""), Vec::<String>::new());
    assert_eq!(tokenize("a"), strings(&["a"]));
    assert_eq!(tokenize(" a"), strings(&["a"]));
    assert_eq!(tokenize("a "), strings(&["a"]));
}

#[test]
fn tokenize_keeps_letters_and_digits_of_any_script() {
    assert_eq!(tokenize("año 2024 naïve_x ß9"), strings(&["año", "2024", "naïve", "x", "ß9"]));
    assert_eq!(tokenize("日本語 テキスト"), strings(&["日本語", "テキスト"]));
}

#[test]
fn split_words_follows_the_marks() {
    let marks = vec![true, true, false, false, true, false];
    assert_eq!(split_words("ab  c d", &marks), strings(&["ab", "c"]));
    assert_eq!(split_words("abc", &vec![]), Vec::<String>::new());
    assert_eq!(split_words("abc", &vec![false, true]), strings(&["b"]));
    assert_eq!(split_words("abc", &vec![true, true, true, true]), strings(&["abc"]));
}

#[test]
fn new_index_is_empty() {
    let index = InMemoryIndex::new();
    assert!(index.is_empty());
    assert!(!index.is_large());
    assert_eq!(index.word_count, 0);
    assert_eq!(index.len(), 0);
}

#[test]
fn single_document_has_one_posting_per_term() {
    let index = InMemoryIndex::from_single_document(7, "to be or not to be".to_string());
    assert_eq!(index.word_count, 6);
    assert_eq!(index.len(), 4);
    assert_eq!(index.get("to"), Some(&vec![posting(7, &[0, 4])]));
    assert_eq!(index.get("be"), Some(&vec![posting(7, &[1, 5])]));
    assert_eq!(index.get("or"), Some(&vec![posting(7, &[2])]));
    assert_eq!(index.get("not"), Some(&vec![posting(7, &[3])]));
    assert_eq!(index.get("two"), None);
    assert!(!index.is_empty());
}

#[test]
fn single_document_is_put_in_lower_case() {
    let index = InMemoryIndex::from_single_document(1, "The THE the ÉCOLE école".to_string());
    assert_eq!(index.word_count, 5);
    assert_eq!(index.len(), 2);
    assert_eq!(index.get("the"), Some(&vec![posting(1, &[0, 1, 2])]));
    assert_eq!(index.get("école"), Some(&vec![posting(1, &[3, 4])]));
    assert_eq!(index.get("The"), None);
}

#[test]
fn document_number_keeps_its_low_32_bits() {
    let index = InMemoryIndex::from_single_document(0x1_0000_0005, "x".to_string());
    assert_eq!(index.get("x"), Some(&vec![posting(5, &[0])]));
}

#[test]
fn from_tokens_takes_the_tokens_as_they_are() {
    let index = InMemoryIndex::from_tokens(3, &strings(&["B", "a", "B"]));
    assert_eq!(index.word_count, 3);
    assert_eq!(index.get("B"), Some(&vec![posting(3, &[0, 2])]));
    assert_eq!(index.get("a"), Some(&vec![posting(3, &[1])]));
}

#[test]
fn terms_stand_in_byte_order() {
    let index = InMemoryIndex::from_single_document(0, "b a é z aa B".to_string());
    let terms: Vec<String> =
        index.into_entries().into_iter().map(|e| e.into_parts().0).collect();
    assert_eq!(terms, strings(&["a", "aa", "b", "z", "é"]));
}

#[test]
fn empty_document_gives_empty_index() {
    let index = InMemoryIndex::from_single_document(0, " ,.;".to_string());
    assert!(index.is_empty());
    assert_eq!(index.len(), 0);
}

#[test]
fn merge_appends_postings_and_adds_word_counts() {
    let mut left = InMemoryIndex::from_single_document(0, "alpha beta".to_string());
    let right = InMemoryIndex::from_single_document(1, "beta gamma".to_string());
    left.merge(right);
    assert_eq!(left.word_count, 4);
    assert_eq!(left.len(), 3);
    assert_eq!(left.get("alpha"), Some(&vec![posting(0, &[0])]));
    assert_eq!(left.get("beta"), Some(&vec![posting(0, &[1]), posting(1, &[0])]));
    assert_eq!(left.get("gamma"), Some(&vec![posting(1, &[1])]));
}

#[test]
fn merge_with_empty_index_changes_nothing() {
    let mut index = InMemoryIndex::from_single_document(4, "one two".to_string());
    index.merge(InMemoryIndex::new());
    assert_eq!(index.word_count, 2);
    assert_eq!(index.get("one"), Some(&vec![posting(4, &[0])]));
    let mut empty = InMemoryIndex::new();
    empty.merge(index);
    assert_eq!(empty.word_count, 2);
    assert_eq!(empty.get("two"), Some(&vec![posting(4, &[1])]));
}

#[test]
fn merge_keeps_documents_in_order() {
    let mut index = InMemoryIndex::new();
    for (id, text) in ["x y", "y", "x", "y x"].iter().enumerate() {
        index.merge(InMemoryIndex::from_single_document(id, text.to_string()));
    }
    assert_eq!(
        index.get("x"),
        Some(&vec![posting(0, &[0]), posting(2, &[0]), posting(3, &[1])])
    );
    assert_eq!(
        index.get("y"),
        Some(&vec![posting(0, &[1]), posting(1, &[0]), posting(3, &[0])])
    );
}

#[test]
fn is_large_is_strictly_above_the_threshold() {
    let mut index = InMemoryIndex::new();
    assert_eq!(REASONABLE_SIZE, 100_000_000);
    index.word_count = 100_000_000;
    assert!(!index.is_large());
    index.word_count = 100_000_001;
    assert!(index.is_large());
    assert!(!index.is_empty());
}
