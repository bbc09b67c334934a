use words_counting::table::FrequencyTable;
use words_counting::tokenize::{count_corpus, count_words_in_file_unicode};

fn count_of(t: &FrequencyTable, w: &str) -> u64 {
    t.count_of(&String::from(w))
}

#[test]
fn scenario_single_file_case_folded() {
    let mut t = FrequencyTable::new();
    count_words_in_file_unicode(b"Hello hello WORLD".to_vec(), &mut t);
    assert_eq!(count_of(&t, "hello"), 2);
    assert_eq!(count_of(&t, "world"), 1);
    assert_eq!(t.num_words(), 2);
}

#[test]
fn invalid_utf8_counts_nothing() {
    let mut t = FrequencyTable::new();
    count_words_in_file_unicode(vec![0xff, 0xfe, 0x41], &mut t);
    assert_eq!(t.num_words(), 0);
    // The same table keeps working afterwards: the failure is per-document.
    count_words_in_file_unicode(b"ok".to_vec(), &mut t);
    assert_eq!(count_of(&t, "ok"), 1);
}

#[test]
fn segmentation_strips_punctuation() {
    let mut t = FrequencyTable::new();
    count_words_in_file_unicode(b"foo, bar! foo?".to_vec(), &mut t);
    assert_eq!(count_of(&t, "foo"), 2);
    assert_eq!(count_of(&t, "bar"), 1);
    assert_eq!(t.num_words(), 2);
}

#[test]
fn case_folding_merges_variants() {
    let mut t = FrequencyTable::new();
    count_words_in_file_unicode(b"Mixed MIXED mixed MiXeD".to_vec(), &mut t);
    assert_eq!(count_of(&t, "mixed"), 4);
    assert_eq!(count_of(&t, "Mixed"), 0);
    assert_eq!(t.num_words(), 1);
}

#[test]
fn empty_document_counts_nothing() {
    let mut t = FrequencyTable::new();
    count_words_in_file_unicode(Vec::new(), &mut t);
    assert_eq!(t.num_words(), 0);
}

#[test]
fn counts_accumulate_across_documents() {
    let mut t = FrequencyTable::new();
    count_words_in_file_unicode(b"a b a".to_vec(), &mut t);
    count_words_in_file_unicode(b"b c".to_vec(), &mut t);
    assert_eq!(count_of(&t, "a"), 2);
    assert_eq!(count_of(&t, "b"), 2);
    assert_eq!(count_of(&t, "c"), 1);
}

#[test]
fn counts_saturate_at_max() {
    let mut t = FrequencyTable::new();
    t.add_count(String::from("w"), u64::MAX);
    t.bump(String::from("w"));
    assert_eq!(count_of(&t, "w"), u64::MAX);
}

#[test]
fn non_ascii_words_fold_and_count() {
    let mut t = FrequencyTable::new();
    count_words_in_file_unicode("Café café".as_bytes().to_vec(), &mut t);
    assert_eq!(count_of(&t, "café"), 2);
    assert_eq!(t.num_words(), 1);
}

#[test]
fn sequential_corpus_count() {
    let docs: Vec<Vec<u8>> = vec![b"one two".to_vec(), b"two three".to_vec(), Vec::new()];
    let t = count_corpus(docs);
    assert_eq!(count_of(&t, "one"), 1);
    assert_eq!(count_of(&t, "two"), 2);
    assert_eq!(count_of(&t, "three"), 1);
    assert_eq!(t.num_words(), 3);
}
