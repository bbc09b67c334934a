//! Tokenization: UTF-8 decoding, case folding, Unicode word segmentation,
//! and counting one document's words into a frequency table.
use crate::table::{spec_bump, FrequencyTable, WordCounts};
use unicode_segmentation::UnicodeSegmentation;
use vstd::prelude::*;

verus! {

/// The case-folded form of a character sequence. What the fold maps each
/// character to is the folding function's concern; the library only relies
/// on it being a function of the characters.
pub uninterp spec fn fold_of(s: Seq<char>) -> Seq<char>;

/// The Unicode word segmentation of a character sequence: its maximal word
/// substrings, in order. A function of the characters alone.
pub uninterp spec fn words_of(s: Seq<char>) -> Seq<Seq<char>>;

/// Relies on str::to_lowercase for case folding: the result depends on the
/// characters alone, so it is named by `fold_of`.
#[verifier::external_body]
fn fold_case(s: &str) -> (r: String)
    ensures
        r@ == fold_of(s@),
{
    s.to_lowercase()
}

/// Relies on unicode_segmentation's UnicodeSegmentation::unicode_words: the
/// word substrings depend on the characters alone, so their sequence is
/// named by `words_of`.
#[verifier::external_body]
fn segment_words(s: &str) -> (r: Vec<String>)
    ensures
        r@.map_values(|w: String| w@) == words_of(s@),
{
    s.unicode_words().map(|w| w.to_owned()).collect()
}

/// Relies on String::from_utf8: it returns `Ok` exactly on valid UTF-8, and
/// the string then holds the decoding of the bytes.
#[verifier::external_body]
fn decode_utf8_bytes(content: Vec<u8>) -> (r: Option<String>)
    ensures
        r is Some <==> vstd::utf8::valid_utf8(content@),
        r is Some ==> r.unwrap()@ == vstd::utf8::decode_utf8(content@),
{
    match String::from_utf8(content) {
        Ok(s) => Some(s),
        Err(_) => None,
    }
}

/// The words a document contributes: decode its bytes as UTF-8, case-fold,
/// segment. A document that is not valid UTF-8 contributes no words.
pub open spec fn doc_words(content: Seq<u8>) -> Seq<Seq<char>> {
    if vstd::utf8::valid_utf8(content) {
        words_of(fold_of(vstd::utf8::decode_utf8(content)))
    } else {
        Seq::empty()
    }
}

/// Count the words of `ws` into `m`, in order.
pub open spec fn add_words(m: WordCounts, ws: Seq<Seq<char>>) -> WordCounts
    decreases ws.len(),
{
    if ws.len() == 0 {
        m
    } else {
        spec_bump(add_words(m, ws.drop_last()), ws.last())
    }
}

/// Count one document's words into `m`.
pub open spec fn add_doc(m: WordCounts, content: Seq<u8>) -> WordCounts {
    add_words(m, doc_words(content))
}

/// The table a sequential count over `docs` produces, first to last.
pub open spec fn table_of_docs(docs: Seq<Seq<u8>>) -> WordCounts
    decreases docs.len(),
{
    if docs.len() == 0 {
        Map::empty()
    } else {
        add_doc(table_of_docs(docs.drop_last()), docs.last())
    }
}

/// Tokenize one document and count its words into `counter`: decode the
/// bytes as UTF-8 (a document that fails to decode counts nothing and is
/// not an error), case-fold the text, segment it into Unicode words, and
/// record one occurrence per word.
pub fn count_words_in_file_unicode(content: Vec<u8>, counter: &mut FrequencyTable)
    requires
        old(counter).wf(),
    ensures
        final(counter).wf(),
        final(counter)@ == add_doc(old(counter)@, content@),
{
    let ghost content0 = content@;
    let text = match decode_utf8_bytes(content) {
        Some(s) => s,
        None => {
            return ;
        },
    };
    let folded = fold_case(text.as_str());
    let words = segment_words(folded.as_str());
    let ghost ws = words@.map_values(|w: String| w@);
    proof {
        assert(ws == doc_words(content0));
    }
    let n = words.len();
    let mut i: usize = 0;
    while i < n
        invariant
            counter.wf(),
            n == words@.len(),
            0 <= i <= n,
            ws == words@.map_values(|w: String| w@),
            counter@ == add_words(old(counter)@, ws.take(i as int)),
        decreases n - i,
    {
        let w = words[i].clone();
        proof {
            assert(ws[i as int] == words@[i as int]@);
        }
        counter.bump(w);
        proof {
            let ii = i as int;
            assert(ws.take(ii + 1).drop_last() =~= ws.take(ii));
            assert(ws.take(ii + 1).last() == ws[ii]);
        }
        i = i + 1;
    }
    proof {
        assert(ws.take(n as int) =~= ws);
    }
}

/// The single-threaded sequential count over a whole corpus, document by
/// document, in order.
pub fn count_corpus(docs: Vec<Vec<u8>>) -> (t: FrequencyTable)
    ensures
        t.wf(),
        t@ == table_of_docs(docs@.map_values(|d: Vec<u8>| d@)),
{
    let ghost ds = docs@.map_values(|d: Vec<u8>| d@);
    let mut t = FrequencyTable::new();
    let n = docs.len();
    let mut i: usize = 0;
    while i < n
        invariant
            t.wf(),
            n == docs@.len(),
            0 <= i <= n,
            ds == docs@.map_values(|d: Vec<u8>| d@),
            t@ == table_of_docs(ds.take(i as int)),
        decreases n - i,
    {
        let d = docs[i].clone();
        proof {
            assert(ds[i as int] == docs@[i as int]@);
        }
        count_words_in_file_unicode(d, &mut t);
        proof {
            let ii = i as int;
            assert(ds.take(ii + 1).drop_last() =~= ds.take(ii));
            assert(ds.take(ii + 1).last() == ds[ii]);
        }
        i = i + 1;
    }
    proof {
        assert(ds.take(n as int) =~= ds);
    }
    t
}

} // verus!
