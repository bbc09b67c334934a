use words_counting::scan::{classify_file, is_entry_admissible, FileClass};
use words_counting::MAX_FILESIZE;

#[test]
fn plain_text_by_suffix_and_size() {
    assert_eq!(classify_file("notes.txt", 10), FileClass::PlainText);
    assert_eq!(classify_file("notes.txt", MAX_FILESIZE), FileClass::PlainText);
    assert_eq!(classify_file("notes.txt", MAX_FILESIZE + 1), FileClass::Ignored);
}

#[test]
fn archives_by_suffix_at_any_size() {
    assert_eq!(classify_file("a.zip", 0), FileClass::Archive);
    assert_eq!(classify_file("a.tar", MAX_FILESIZE + 1), FileClass::Archive);
    assert_eq!(classify_file("a.gz", 5), FileClass::Archive);
    assert_eq!(classify_file("a.tar.gz", 5), FileClass::Archive);
    assert_eq!(classify_file("a.7z", 5), FileClass::Archive);
}

#[test]
fn other_names_ignored() {
    assert_eq!(classify_file("a.pdf", 10), FileClass::Ignored);
    assert_eq!(classify_file("txt", 10), FileClass::Ignored);
    assert_eq!(classify_file("zip", 10), FileClass::Ignored);
    assert_eq!(classify_file("", 10), FileClass::Ignored);
    assert_eq!(classify_file("a.txt.bak", 10), FileClass::Ignored);
}

#[test]
fn entry_admissible_boundary() {
    assert!(is_entry_admissible("inner.txt", MAX_FILESIZE));
    assert!(!is_entry_admissible("inner.txt", MAX_FILESIZE + 1));
    assert!(!is_entry_admissible("inner.png", 10));
}
