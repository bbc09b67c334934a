//! Library-wide laws: the global count is independent of how the corpus is
//! partitioned among workers and of the order worker tables are merged in;
//! re-running over the same corpus reproduces the same table; and the two
//! sorted reports list exactly the same words with identical counts.
use crate::report::{
    lemma_sorted_by_count_unique, lemma_sorted_by_word_unique, render_of, sorted_by_count,
    sorted_by_word,
};
use crate::table::{
    count_in, distinct_keys, lemma_merge_count, lemma_merge_empty, merge_maps, merge_seq,
    spec_bump, FrequencyTable, WordCounts,
};
use crate::tokenize::{add_doc, add_words, doc_words, table_of_docs};
use vstd::prelude::*;

verus! {

/// All the documents of a partition, in partition order.
pub open spec fn concat_docs(parts: Seq<Seq<Seq<u8>>>) -> Seq<Seq<u8>>
    decreases parts.len(),
{
    if parts.len() == 0 {
        Seq::empty()
    } else {
        concat_docs(parts.drop_last()) + parts.last()
    }
}

/// Bumping a word on a merged table bumps it on the right-hand side.
proof fn lemma_bump_merge(a: WordCounts, t: WordCounts, w: Seq<char>)
    ensures
        spec_bump(merge_maps(a, t), w) == merge_maps(a, spec_bump(t, w)),
{
    let l = spec_bump(merge_maps(a, t), w);
    let r = merge_maps(a, spec_bump(t, w));
    lemma_merge_count(a, t, w);
    assert(count_in(spec_bump(t, w), w) == crate::table::sat_add(count_in(t, w), 1));
    assert forall|k: Seq<char>| l.contains_key(k) implies r.contains_key(k) && l[k] == r[k] by {
        if k != w {
            lemma_merge_count(a, t, k);
            assert(count_in(spec_bump(t, w), k) == count_in(t, k));
            lemma_merge_count(a, spec_bump(t, w), k);
        }
    }
    assert forall|k: Seq<char>| r.contains_key(k) implies l.contains_key(k) by {}
    assert(l =~= r);
}

/// Counting words on a merged table counts them on the right-hand side.
proof fn lemma_add_words_merge(a: WordCounts, t: WordCounts, ws: Seq<Seq<char>>)
    ensures
        add_words(merge_maps(a, t), ws) == merge_maps(a, add_words(t, ws)),
    decreases ws.len(),
{
    if ws.len() > 0 {
        lemma_add_words_merge(a, t, ws.drop_last());
        lemma_bump_merge(a, add_words(t, ws.drop_last()), ws.last());
    }
}

/// Counting one document on a merged table counts it on the right-hand side.
proof fn lemma_add_doc_merge(a: WordCounts, t: WordCounts, d: Seq<u8>)
    ensures
        add_doc(merge_maps(a, t), d) == merge_maps(a, add_doc(t, d)),
{
    lemma_add_words_merge(a, t, doc_words(d));
}

/// Sequential counting splits over a corpus cut anywhere: counting the two
/// halves separately and merging gives the count of the whole.
pub proof fn lemma_table_concat(d1: Seq<Seq<u8>>, d2: Seq<Seq<u8>>)
    ensures
        table_of_docs(d1 + d2) == merge_maps(table_of_docs(d1), table_of_docs(d2)),
    decreases d2.len(),
{
    if d2.len() == 0 {
        assert(d1 + d2 =~= d1);
        lemma_merge_empty(table_of_docs(d1));
    } else {
        lemma_table_concat(d1, d2.drop_last());
        assert((d1 + d2).drop_last() =~= d1 + d2.drop_last());
        assert((d1 + d2).last() == d2.last());
        lemma_add_doc_merge(table_of_docs(d1), table_of_docs(d2.drop_last()), d2.last());
    }
}

/// However a corpus is split among workers, merging the workers' partial
/// tables gives exactly the single-threaded sequential count of the whole
/// corpus: the global table does not depend on the number of workers or on
/// which worker counted which documents.
pub proof fn lemma_partition_count(parts: Seq<Seq<Seq<u8>>>)
    ensures
        merge_seq(parts.map_values(|d: Seq<Seq<u8>>| table_of_docs(d))) == table_of_docs(
            concat_docs(parts),
        ),
    decreases parts.len(),
{
    let ms = parts.map_values(|d: Seq<Seq<u8>>| table_of_docs(d));
    if parts.len() == 0 {
        assert(merge_seq(ms) =~= table_of_docs(concat_docs(parts)));
    } else {
        lemma_partition_count(parts.drop_last());
        assert(ms.drop_last() =~= parts.drop_last().map_values(
            |d: Seq<Seq<u8>>| table_of_docs(d),
        ));
        assert(ms.last() == table_of_docs(parts.last()));
        lemma_table_concat(concat_docs(parts.drop_last()), parts.last());
    }
}

/// Re-running over an unchanged corpus reproduces the identical global
/// table, whatever partitions among workers the two runs used.
pub proof fn lemma_rerun_identical(parts1: Seq<Seq<Seq<u8>>>, parts2: Seq<Seq<Seq<u8>>>)
    requires
        concat_docs(parts1) == concat_docs(parts2),
    ensures
        merge_seq(parts1.map_values(|d: Seq<Seq<u8>>| table_of_docs(d))) == merge_seq(
            parts2.map_values(|d: Seq<Seq<u8>>| table_of_docs(d)),
        ),
{
    lemma_partition_count(parts1);
    lemma_partition_count(parts2);
}

/// Any sequence holding exactly a well-formed table's pairs carries
/// pairwise-distinct words.
proof fn lemma_table_multiset_distinct(t: &FrequencyTable, v: Seq<(Seq<char>, u64)>)
    requires
        t.wf(),
        v.to_multiset() == t.pairs().to_multiset(),
    ensures
        distinct_keys(v),
{
    broadcast use vstd::seq_lib::group_to_multiset_ensures;

    t.lemma_pairs_characterize();
    let ps = t.pairs();
    assert(ps.no_duplicates()) by {
        assert forall|i: int, j: int| 0 <= i < j < ps.len() implies ps[i] != ps[j] by {
            assert(ps[i].0 != ps[j].0);
        }
    }
    ps.lemma_multiset_has_no_duplicates();
    assert forall|x: (Seq<char>, u64)| v.to_multiset().contains(x) implies v.to_multiset().count(x)
        == 1 by {
        assert(ps.to_multiset().count(x) > 0);
    }
    v.lemma_multiset_has_no_duplicates_conv();
    assert forall|i: int, j: int| 0 <= i < j < v.len() implies (#[trigger] v[i]).0 != (
    #[trigger] v[j]).0 by {
        if v[i].0 == v[j].0 {
            assert(v[i] != v[j]);
            assert(v.contains(v[i]));
            assert(ps.to_multiset().count(v[i]) > 0);
            assert(ps.contains(v[i]));
            assert(v.contains(v[j]));
            assert(ps.to_multiset().count(v[j]) > 0);
            assert(ps.contains(v[j]));
            let a = choose|a: int| 0 <= a < ps.len() && ps[a] == v[i];
            let b = choose|b: int| 0 <= b < ps.len() && ps[b] == v[j];
            assert(a != b);
            if a < b {
                assert(ps[a].0 != ps[b].0);
            } else {
                assert(ps[b].0 != ps[a].0);
            }
            assert(false);
        }
    }
}

/// Both report bodies are functions of the global table alone: any two
/// frequency-sorted arrangements of the table's pairs are identical, any
/// two word-sorted ones are identical, and so are their renderings — two
/// runs that produce the same table write byte-identical reports.
pub proof fn lemma_reports_deterministic(
    t: &FrequencyTable,
    n1: Seq<(Seq<char>, u64)>,
    n2: Seq<(Seq<char>, u64)>,
    a1: Seq<(Seq<char>, u64)>,
    a2: Seq<(Seq<char>, u64)>,
)
    requires
        t.wf(),
        sorted_by_count(n1),
        n1.to_multiset() == t.pairs().to_multiset(),
        sorted_by_count(n2),
        n2.to_multiset() == t.pairs().to_multiset(),
        sorted_by_word(a1),
        a1.to_multiset() == t.pairs().to_multiset(),
        sorted_by_word(a2),
        a2.to_multiset() == t.pairs().to_multiset(),
    ensures
        n1 == n2,
        a1 == a2,
        render_of(n1) == render_of(n2),
        render_of(a1) == render_of(a2),
{
    lemma_sorted_by_count_unique(n1, n2);
    lemma_table_multiset_distinct(t, a1);
    lemma_table_multiset_distinct(t, a2);
    lemma_sorted_by_word_unique(a1, a2);
}

/// Cross-report consistency: the two report bodies hold the same pairs —
/// every word of one appears in the other, exactly once each, and always
/// with the table's count for it.
pub proof fn lemma_reports_consistent(
    t: &FrequencyTable,
    bn: Seq<(Seq<char>, u64)>,
    ba: Seq<(Seq<char>, u64)>,
)
    requires
        t.wf(),
        bn.to_multiset() == t.pairs().to_multiset(),
        ba.to_multiset() == t.pairs().to_multiset(),
    ensures
        forall|p: (Seq<char>, u64)| bn.contains(p) <==> ba.contains(p),
        forall|p: (Seq<char>, u64)| #[trigger]
            bn.contains(p) ==> t@.contains_key(p.0) && t@[p.0] == p.1,
        forall|w: Seq<char>| #[trigger]
            t@.contains_key(w) ==> bn.contains((w, t@[w])) && ba.contains((w, t@[w])),
        forall|p: (Seq<char>, u64)| #[trigger]
            bn.contains(p) ==> bn.to_multiset().count(p) == 1 && ba.to_multiset().count(p) == 1,
{
    broadcast use vstd::seq_lib::group_to_multiset_ensures;

    t.lemma_pairs_characterize();
    let ps = t.pairs();
    assert(ps.no_duplicates()) by {
        assert forall|i: int, j: int| 0 <= i < j < ps.len() implies ps[i] != ps[j] by {
            assert(ps[i].0 != ps[j].0);
        }
    }
    ps.lemma_multiset_has_no_duplicates();
    assert forall|p: (Seq<char>, u64)| #[trigger] bn.contains(p) implies t@.contains_key(p.0)
        && t@[p.0] == p.1 by {
        assert(bn.to_multiset().count(p) > 0);
        assert(ps.to_multiset().count(p) > 0);
        assert(ps.contains(p));
        let i = choose|i: int| 0 <= i < ps.len() && ps[i] == p;
        assert(t@.contains_key(ps[i].0) && t@[ps[i].0] == ps[i].1);
    }
    assert forall|w: Seq<char>| #[trigger] t@.contains_key(w) implies bn.contains((w, t@[w]))
        && ba.contains((w, t@[w])) by {
        let i = choose|i: int| 0 <= i < ps.len() && ps[i].0 == w;
        assert(ps[i] == (w, t@[w]));
        assert(ps.contains(ps[i]));
        assert(ps.to_multiset().count(ps[i]) > 0);
        assert(bn.to_multiset().count(ps[i]) > 0);
        assert(ba.to_multiset().count(ps[i]) > 0);
    }
    assert forall|p: (Seq<char>, u64)| bn.contains(p) <==> ba.contains(p) by {
        if bn.contains(p) {
            assert(bn.to_multiset().count(p) > 0);
            assert(ba.to_multiset().count(p) > 0);
        }
        if ba.contains(p) {
            assert(ba.to_multiset().count(p) > 0);
            assert(bn.to_multiset().count(p) > 0);
        }
    }
    assert forall|p: (Seq<char>, u64)| #[trigger] bn.contains(p) implies bn.to_multiset().count(p)
        == 1 && ba.to_multiset().count(p) == 1 by {
        assert(bn.to_multiset().count(p) > 0);
        assert(ps.to_multiset().count(p) > 0);
        assert(ps.to_multiset().contains(p));
        assert(ps.to_multiset().count(p) == 1);
    }
}

} // verus!
