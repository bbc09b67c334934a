//! Classification of candidate files: by name suffix into plain text,
//! archive, or ignored, with the size ceiling enforced on plain files here
//! and on archive entries per entry.
use crate::MAX_FILESIZE;
use vstd::prelude::*;
use vstd::string::StrSliceExecFns;

verus! {

/// What the scanner does with one candidate file.
#[derive(Clone, Copy, PartialEq, Eq, Structural, Debug)]
pub enum FileClass {
    /// Read it and tokenize it as plain text.
    PlainText,
    /// Read it and pull its entries as an archive container.
    Archive,
    /// Drop it.
    Ignored,
}

/// `s` ends with `suf`.
pub open spec fn has_suffix(s: Seq<char>, suf: Seq<char>) -> bool {
    s.len() >= suf.len() && s.subrange(s.len() - suf.len(), s.len() as int) == suf
}

/// The plain-text name suffix.
pub open spec fn txt_suffix() -> Seq<char> {
    seq!['.', 't', 'x', 't']
}

/// The archive name suffixes. The `.tar.gz` form is subsumed by `.gz` for
/// classification; both are listed as the configuration lists both.
pub open spec fn is_archive_name(name: Seq<char>) -> bool {
    ||| has_suffix(name, seq!['.', 'z', 'i', 'p'])
    ||| has_suffix(name, seq!['.', 't', 'a', 'r'])
    ||| has_suffix(name, seq!['.', 'g', 'z'])
    ||| has_suffix(name, seq!['.', 't', 'a', 'r', '.', 'g', 'z'])
    ||| has_suffix(name, seq!['.', '7', 'z'])
}

/// A plain-text name: it carries the plain-text suffix.
pub open spec fn is_plain_name(name: Seq<char>) -> bool {
    has_suffix(name, txt_suffix())
}

/// How one candidate file is classified: a plain-text name is kept only up
/// to the size ceiling; an archive name is kept at any size (its entries
/// are filtered per entry later); everything else is dropped.
pub open spec fn spec_classify(name: Seq<char>, size: u64) -> FileClass {
    if is_plain_name(name) {
        if size <= MAX_FILESIZE {
            FileClass::PlainText
        } else {
            FileClass::Ignored
        }
    } else if is_archive_name(name) {
        FileClass::Archive
    } else {
        FileClass::Ignored
    }
}

/// An archive entry is tokenized exactly when its declared size is within
/// the ceiling and its name carries the plain-text suffix.
pub open spec fn entry_admissible(name: Seq<char>, size: u64) -> bool {
    size <= MAX_FILESIZE && is_plain_name(name)
}

/// Whether `s` ends with `suf`, character-wise.
fn str_has_suffix(s: &str, suf: &str) -> (r: bool)
    ensures
        r == has_suffix(s@, suf@),
{
    let n = s.unicode_len();
    let m = suf.unicode_len();
    if m > n {
        return false;
    }
    let mut i: usize = 0;
    while i < m
        invariant
            n == s@.len(),
            m == suf@.len(),
            m <= n,
            0 <= i <= m,
            forall|j: int| 0 <= j < i ==> s@[n - m + j] == suf@[j],
        decreases m - i,
    {
        if s.get_char(n - m + i) != suf.get_char(i) {
            assert(s@.subrange(s@.len() - suf@.len(), s@.len() as int)[i as int] != suf@[i as int]);
            return false;
        }
        i = i + 1;
    }
    proof {
        assert(s@.subrange(s@.len() - suf@.len(), s@.len() as int) =~= suf@);
    }
    true
}

/// Whether an entry or file name carries the plain-text suffix.
pub fn has_txt_suffix(name: &str) -> (r: bool)
    ensures
        r == is_plain_name(name@),
{
    proof {
        reveal_strlit(".txt");
        assert(".txt"@ =~= txt_suffix());
    }
    str_has_suffix(name, ".txt")
}

/// Classify one candidate file by its name and size.
pub fn classify_file(name: &str, size: u64) -> (c: FileClass)
    ensures
        c == spec_classify(name@, size),
{
    if has_txt_suffix(name) {
        if size <= MAX_FILESIZE {
            FileClass::PlainText
        } else {
            FileClass::Ignored
        }
    } else {
        proof {
            reveal_strlit(".zip");
            reveal_strlit(".tar");
            reveal_strlit(".gz");
            reveal_strlit(".tar.gz");
            reveal_strlit(".7z");
            assert(".zip"@ =~= seq!['.', 'z', 'i', 'p']);
            assert(".tar"@ =~= seq!['.', 't', 'a', 'r']);
            assert(".gz"@ =~= seq!['.', 'g', 'z']);
            assert(".tar.gz"@ =~= seq!['.', 't', 'a', 'r', '.', 'g', 'z']);
            assert(".7z"@ =~= seq!['.', '7', 'z']);
        }
        let arch = str_has_suffix(name, ".zip") || str_has_suffix(name, ".tar") || str_has_suffix(
            name,
            ".gz",
        ) || str_has_suffix(name, ".tar.gz") || str_has_suffix(name, ".7z");
        if arch {
            FileClass::Archive
        } else {
            FileClass::Ignored
        }
    }
}

/// Decide whether an archive entry is tokenized: its declared size must be
/// within the ceiling and its name must carry the plain-text suffix.
pub fn is_entry_admissible(name: &str, size: u64) -> (r: bool)
    ensures
        r == entry_admissible(name@, size),
{
    size <= MAX_FILESIZE && has_txt_suffix(name)
}

} // verus!
