//! Frequency tables: a mapping from normalized words to occurrence counts.
//!
//! The mathematical model of a table is a `Map<Seq<char>, u64>`; counts only
//! grow, and additions saturate at `u64::MAX` instead of overflowing.
use vstd::prelude::*;

verus! {

/// The mathematical model of a frequency table.
pub type WordCounts = Map<Seq<char>, u64>;

/// Addition on counts, saturating at `u64::MAX`.
pub open spec fn sat_add(a: u64, b: u64) -> u64 {
    if a + b > u64::MAX {
        u64::MAX
    } else {
        (a + b) as u64
    }
}

/// The count recorded for `w`, taking absent words as zero.
pub open spec fn count_in(m: WordCounts, w: Seq<char>) -> u64 {
    if m.contains_key(w) {
        m[w]
    } else {
        0
    }
}

/// `m` with `c` more occurrences of `w`.
pub open spec fn spec_add_count(m: WordCounts, w: Seq<char>, c: u64) -> WordCounts {
    m.insert(w, sat_add(count_in(m, w), c))
}

/// `m` with one more occurrence of `w`.
pub open spec fn spec_bump(m: WordCounts, w: Seq<char>) -> WordCounts {
    spec_add_count(m, w, 1)
}

/// The key-wise sum of two tables: a word counts in the result whatever it
/// counts in `a` plus whatever it counts in `b`.
pub open spec fn merge_maps(a: WordCounts, b: WordCounts) -> WordCounts {
    Map::new(
        |w: Seq<char>| a.contains_key(w) || b.contains_key(w),
        |w: Seq<char>| sat_add(count_in(a, w), count_in(b, w)),
    )
}

/// A frequency table. Executable lookups walk a vector of entries with
/// pairwise-distinct keys; contracts speak of the view, a `WordCounts` map.
pub struct FrequencyTable {
    entries: Vec<(String, u64)>,
    counts: Ghost<Map<Seq<char>, u64>>,
}

impl View for FrequencyTable {
    type V = WordCounts;

    closed spec fn view(&self) -> WordCounts {
        self.counts@
    }
}

impl FrequencyTable {
    /// The table's entries as (word, count) pairs, in storage order.
    pub closed spec fn pairs(&self) -> Seq<(Seq<char>, u64)> {
        self.entries@.map_values(|e: (String, u64)| (e.0@, e.1))
    }

    /// Well-formed: the entry keys are pairwise distinct, every entry carries
    /// a positive count and agrees with the view, and the view holds no word
    /// outside the entries.
    pub closed spec fn wf(&self) -> bool {
        &&& (forall|i: int, j: int|
            0 <= i < j < self.entries@.len() ==> (#[trigger] self.entries@[i].0@) != (
            #[trigger] self.entries@[j].0@))
        &&& (forall|i: int|
            0 <= i < self.entries@.len() ==> self.counts@.contains_key(
                (#[trigger] self.entries@[i]).0@,
            ) && self.counts@[self.entries@[i].0@] == self.entries@[i].1 && self.entries@[i].1
                >= 1)
        &&& (forall|k: Seq<char>|
            #[trigger] self.counts@.contains_key(k) ==> exists|i: int|
                0 <= i < self.entries@.len() && (#[trigger] self.entries@[i]).0@ == k)
    }

    /// Every fact about `pairs()` that reports and callers need: the pairs
    /// carry pairwise-distinct words, each pair records exactly the view's
    /// count for its word, and every counted word appears among the pairs.
    pub proof fn lemma_pairs_characterize(&self)
        requires
            self.wf(),
        ensures
            forall|i: int, j: int|
                0 <= i < j < self.pairs().len() ==> (#[trigger] self.pairs()[i]).0 != (
                #[trigger] self.pairs()[j]).0,
            forall|i: int|
                0 <= i < self.pairs().len() ==> self@.contains_key((#[trigger] self.pairs()[i]).0)
                    && self@[self.pairs()[i].0] == self.pairs()[i].1 && self.pairs()[i].1 >= 1,
            forall|k: Seq<char>|
                #[trigger] self@.contains_key(k) ==> exists|i: int|
                    0 <= i < self.pairs().len() && (#[trigger] self.pairs()[i]).0 == k,
    {
        assert(forall|k: Seq<char>|
            self@.contains_key(k) ==> exists|i: int|
                0 <= i < self.pairs().len() && (#[trigger] self.pairs()[i]).0 == k) by {
            assert forall|k: Seq<char>| self@.contains_key(k) implies exists|i: int|
                0 <= i < self.pairs().len() && (#[trigger] self.pairs()[i]).0 == k by {
                let i = choose|i: int|
                    0 <= i < self.entries@.len() && (#[trigger] self.entries@[i]).0@ == k;
                assert(self.pairs()[i].0 == k);
            }
        }
    }

    /// An empty table: no word has been counted.
    pub fn new() -> (t: FrequencyTable)
        ensures
            t.wf(),
            t@ == Map::<Seq<char>, u64>::empty(),
            t.pairs().len() == 0,
    {
        FrequencyTable { entries: Vec::new(), counts: Ghost(Map::empty()) }
    }

    /// How many distinct words the table holds.
    pub fn num_words(&self) -> (n: usize)
        ensures
            n == self.pairs().len(),
    {
        self.entries.len()
    }

    /// The index of `w` among the entries, if `w` has been counted.
    fn find_idx(&self, w: &String) -> (r: Option<usize>)
        ensures
            match r {
                Some(i) => 0 <= i < self.pairs().len() && self.pairs()[i as int].0 == w@,
                None => forall|j: int|
                    0 <= j < self.pairs().len() ==> (#[trigger] self.pairs()[j]).0 != w@,
            },
    {
        let n = self.entries.len();
        let mut i: usize = 0;
        while i < n
            invariant
                n == self.entries@.len(),
                0 <= i <= n,
                forall|j: int| 0 <= j < i ==> (#[trigger] self.entries@[j]).0@ != w@,
            decreases n - i,
        {
            if self.entries[i].0 == *w {
                assert(self.pairs()[i as int].0 == w@);
                return Some(i);
            }
            i = i + 1;
        }
        assert(forall|j: int|
            0 <= j < self.pairs().len() ==> (#[trigger] self.pairs()[j]).0 == self.entries@[j].0@);
        None
    }

    /// The count recorded for `w`; zero if `w` has never been counted.
    pub fn count_of(&self, w: &String) -> (c: u64)
        requires
            self.wf(),
        ensures
            c == count_in(self@, w@),
    {
        match self.find_idx(w) {
            Some(i) => self.entries[i].1,
            None => {
                proof {
                    if self@.contains_key(w@) {
                        let i = choose|i: int|
                            0 <= i < self.entries@.len() && (#[trigger] self.entries@[i]).0@ == w@;
                        assert(self.pairs()[i].0 == w@);
                    }
                }
                0
            },
        }
    }

    /// Record `c` more occurrences of `w`, saturating at `u64::MAX`.
    pub fn add_count(&mut self, w: String, c: u64)
        requires
            old(self).wf(),
            c >= 1,
        ensures
            final(self).wf(),
            final(self)@ == spec_add_count(old(self)@, w@, c),
    {
        match self.find_idx(&w) {
            Some(i) => {
                proof {
                    let ii = i as int;
                    assert(self.pairs()[ii] == (self.entries@[ii].0@, self.entries@[ii].1));
                }
                let cur = self.entries[i].1;
                let nc = if cur > u64::MAX - c {
                    u64::MAX
                } else {
                    cur + c
                };
                assert(nc == sat_add(cur, c));
                proof {
                    assert(old(self).entries@[i as int].0@ == w@);
                    assert(old(self)@.contains_key(w@) && old(self)@[w@] == cur);
                }
                self.entries[i] = (w, nc);
                proof {
                    self.counts@ = self.counts@.insert(w@, nc);
                    assert(self@ =~= spec_add_count(old(self)@, w@, c));
                    assert forall|p: int|
                        0 <= p < self.entries@.len() implies (#[trigger] self.entries@[p]).0@
                        == old(self).entries@[p].0@ by {}
                    assert forall|k: Seq<char>| self.counts@.contains_key(k) implies exists|
                        jj: int,
                    | 0 <= jj < self.entries@.len() && (#[trigger] self.entries@[jj]).0@ == k by {
                        if k == w@ {
                            assert(0 <= i < self.entries@.len() && self.entries@[i as int].0@ == k);
                        } else {
                            let jj = choose|jj: int|
                                0 <= jj < old(self).entries@.len() && (#[trigger] old(
                                    self,
                                ).entries@[jj]).0@ == k;
                            assert(self.entries@[jj].0@ == k);
                        }
                    }
                    assert forall|j: int|
                        0 <= j < self.entries@.len() implies self.counts@.contains_key(
                        (#[trigger] self.entries@[j]).0@,
                    ) && self.counts@[self.entries@[j].0@] == self.entries@[j].1
                        && self.entries@[j].1 >= 1 by {
                        if j != i {
                            assert(self.entries@[j] == old(self).entries@[j]);
                            if j < i {
                                assert(old(self).entries@[j].0@ != old(self).entries@[i as int].0@);
                            } else {
                                assert(old(self).entries@[i as int].0@ != old(self).entries@[j].0@);
                            }
                        }
                    }
                }
            },
            None => {
                proof {
                    if old(self)@.contains_key(w@) {
                        let i = choose|i: int|
                            0 <= i < old(self).entries@.len() && (#[trigger] old(
                                self,
                            ).entries@[i]).0@ == w@;
                        assert(old(self).pairs()[i].0 == w@);
                    }
                    assert(!old(self)@.contains_key(w@));
                }
                self.entries.push((w, c));
                proof {
                    let last = self.entries@.len() - 1;
                    assert(self.entries@[last].0@ == w@);
                    self.counts@ = self.counts@.insert(w@, c);
                    assert(sat_add(count_in(old(self)@, w@), c) == c);
                    assert(self@ =~= spec_add_count(old(self)@, w@, c));
                    assert forall|kk: Seq<char>| self.counts@.contains_key(kk) implies exists|
                        jj: int,
                    | 0 <= jj < self.entries@.len() && (#[trigger] self.entries@[jj]).0@ == kk by {
                        if kk == w@ {
                            assert(self.entries@[last].0@ == kk);
                        } else {
                            let jj = choose|jj: int|
                                0 <= jj < old(self).entries@.len() && (#[trigger] old(
                                    self,
                                ).entries@[jj]).0@ == kk;
                            assert(self.entries@[jj].0@ == kk);
                        }
                    }
                    assert forall|j: int|
                        0 <= j < self.entries@.len() implies self.counts@.contains_key(
                        (#[trigger] self.entries@[j]).0@,
                    ) && self.counts@[self.entries@[j].0@] == self.entries@[j].1
                        && self.entries@[j].1 >= 1 by {
                        if j < last {
                            assert(self.entries@[j] == old(self).entries@[j]);
                            assert(old(self).pairs()[j].0 == old(self).entries@[j].0@);
                            assert(old(self).entries@[j].0@ != w@);
                        }
                    }
                }
            },
        }
    }

    /// Record one more occurrence of `w`.
    pub fn bump(&mut self, w: String)
        requires
            old(self).wf(),
        ensures
            final(self).wf(),
            final(self)@ == spec_bump(old(self)@, w@),
    {
        self.add_count(w, 1);
    }

    /// The table's entries as an owned vector of (word, count) pairs.
    pub fn entries_vec(&self) -> (v: Vec<(String, u64)>)
        ensures
            pairs_of(v@) == self.pairs(),
    {
        let n = self.entries.len();
        let mut v: Vec<(String, u64)> = Vec::new();
        let mut i: usize = 0;
        while i < n
            invariant
                n == self.entries@.len(),
                0 <= i <= n,
                v@.len() == i,
                forall|j: int| 0 <= j < i ==> pairs_of(v@)[j] == self.pairs()[j],
            decreases n - i,
        {
            let w = self.entries[i].0.clone();
            let c = self.entries[i].1;
            v.push((w, c));
            i = i + 1;
        }
        proof {
            assert(pairs_of(v@) =~= self.pairs());
        }
        v
    }

    /// Add every count of `other` into this table, key-wise.
    pub fn merge_from(&mut self, other: &FrequencyTable)
        requires
            old(self).wf(),
            other.wf(),
        ensures
            final(self).wf(),
            final(self)@ == merge_maps(old(self)@, other@),
    {
        proof {
            other.lemma_pairs_characterize();
        }
        let n = other.entries.len();
        let mut i: usize = 0;
        while i < n
            invariant
                self.wf(),
                other.wf(),
                n == other.entries@.len(),
                n == other.pairs().len(),
                0 <= i <= n,
                forall|j: int|
                    0 <= j < other.pairs().len() ==> (#[trigger] other.pairs()[j]).1 >= 1,
                self@ == add_pairs(old(self)@, other.pairs().take(i as int)),
            decreases n - i,
        {
            let w = other.entries[i].0.clone();
            let c = other.entries[i].1;
            proof {
                assert(other.pairs()[i as int] == (other.entries@[i as int].0@, other.entries@[
                    i as int
                ].1));
            }
            self.add_count(w, c);
            proof {
                let ii = i as int;
                assert(other.pairs().take(ii + 1).drop_last() =~= other.pairs().take(ii));
                assert(other.pairs().take(ii + 1).last() == other.pairs()[ii]);
            }
            i = i + 1;
        }
        proof {
            assert(other.pairs().take(n as int) =~= other.pairs());
            lemma_add_pairs_merge(old(self)@, other);
        }
    }
}

/// The (word, count) pairs a vector of entries describes.
pub open spec fn pairs_of(s: Seq<(String, u64)>) -> Seq<(Seq<char>, u64)> {
    s.map_values(|e: (String, u64)| (e.0@, e.1))
}

/// Pairwise-distinct words among a sequence of (word, count) pairs.
pub open spec fn distinct_keys(ps: Seq<(Seq<char>, u64)>) -> bool {
    forall|i: int, j: int| 0 <= i < j < ps.len() ==> (#[trigger] ps[i]).0 != (#[trigger] ps[j]).0
}

/// Fold the pairs into `m`, adding each pair's count to its word.
pub open spec fn add_pairs(m: WordCounts, ps: Seq<(Seq<char>, u64)>) -> WordCounts
    decreases ps.len(),
{
    if ps.len() == 0 {
        m
    } else {
        spec_add_count(add_pairs(m, ps.drop_last()), ps.last().0, ps.last().1)
    }
}

/// The table described by a sequence of pairs: each word maps to its count.
pub open spec fn map_of_pairs(ps: Seq<(Seq<char>, u64)>) -> WordCounts
    decreases ps.len(),
{
    if ps.len() == 0 {
        Map::empty()
    } else {
        map_of_pairs(ps.drop_last()).insert(ps.last().0, ps.last().1)
    }
}

/// With pairwise-distinct words, `map_of_pairs` holds exactly the listed
/// words, each at its listed count.
pub proof fn lemma_map_of_pairs_agrees(ps: Seq<(Seq<char>, u64)>)
    requires
        distinct_keys(ps),
    ensures
        forall|k: Seq<char>|
            #[trigger] map_of_pairs(ps).contains_key(k) <==> exists|i: int|
                0 <= i < ps.len() && (#[trigger] ps[i]).0 == k,
        forall|i: int|
            0 <= i < ps.len() ==> map_of_pairs(ps).contains_key((#[trigger] ps[i]).0)
                && map_of_pairs(ps)[ps[i].0] == ps[i].1,
    decreases ps.len(),
{
    if ps.len() > 0 {
        let ps1 = ps.drop_last();
        lemma_map_of_pairs_agrees(ps1);
        assert forall|i: int|
            0 <= i < ps.len() implies map_of_pairs(ps).contains_key((#[trigger] ps[i]).0)
            && map_of_pairs(ps)[ps[i].0] == ps[i].1 by {
            if i < ps.len() - 1 {
                assert(ps1[i] == ps[i]);
                assert(ps[i].0 != ps.last().0);
            }
        }
        assert forall|k: Seq<char>| #[trigger] map_of_pairs(ps).contains_key(k) implies exists|
            i: int,
        | 0 <= i < ps.len() && (#[trigger] ps[i]).0 == k by {
            if k == ps.last().0 {
                assert(ps[ps.len() - 1].0 == k);
            } else {
                assert(map_of_pairs(ps1).contains_key(k));
                let i = choose|i: int| 0 <= i < ps1.len() && (#[trigger] ps1[i]).0 == k;
                assert(ps1[i] == ps[i]);
                assert(ps[i].0 == k);
            }
        }
    }
}

/// Adding distinct pairs into `m` is the same as merging `m` with the table
/// the pairs describe.
pub proof fn lemma_add_pairs_is_merge(m: WordCounts, ps: Seq<(Seq<char>, u64)>)
    requires
        distinct_keys(ps),
    ensures
        add_pairs(m, ps) == merge_maps(m, map_of_pairs(ps)),
    decreases ps.len(),
{
    if ps.len() == 0 {
        assert(add_pairs(m, ps) =~= merge_maps(m, map_of_pairs(ps)));
    } else {
        let ps1 = ps.drop_last();
        let p = ps.last();
        lemma_add_pairs_is_merge(m, ps1);
        lemma_map_of_pairs_agrees(ps1);
        assert(forall|i: int| 0 <= i < ps1.len() ==> (#[trigger] ps1[i]) == ps[i]);
        assert(!map_of_pairs(ps1).contains_key(p.0)) by {
            if map_of_pairs(ps1).contains_key(p.0) {
                let i = choose|i: int| 0 <= i < ps1.len() && (#[trigger] ps1[i]).0 == p.0;
                assert(ps[i].0 == ps[ps.len() - 1].0);
            }
        }
        assert(spec_add_count(merge_maps(m, map_of_pairs(ps1)), p.0, p.1) =~= merge_maps(
            m,
            map_of_pairs(ps),
        ));
    }
}

/// A well-formed table is exactly the table its pairs describe.
pub proof fn lemma_table_is_map_of_pairs(t: &FrequencyTable)
    requires
        t.wf(),
    ensures
        t@ == map_of_pairs(t.pairs()),
        distinct_keys(t.pairs()),
{
    t.lemma_pairs_characterize();
    lemma_map_of_pairs_agrees(t.pairs());
    assert(t@ =~= map_of_pairs(t.pairs()));
}

/// Adding a table's pairs into `m` merges the table into `m`.
pub proof fn lemma_add_pairs_merge(m: WordCounts, t: &FrequencyTable)
    requires
        t.wf(),
    ensures
        add_pairs(m, t.pairs()) == merge_maps(m, t@),
{
    lemma_table_is_map_of_pairs(t);
    lemma_add_pairs_is_merge(m, t.pairs());
}

/// Merging with an empty table changes nothing, on either side.
pub proof fn lemma_merge_empty(a: WordCounts)
    ensures
        merge_maps(a, Map::empty()) == a,
        merge_maps(Map::empty(), a) == a,
{
    assert(merge_maps(a, Map::empty()) =~= a);
    assert(merge_maps(Map::empty(), a) =~= a);
}

/// Merging tables is commutative.
pub proof fn lemma_merge_comm(a: WordCounts, b: WordCounts)
    ensures
        merge_maps(a, b) == merge_maps(b, a),
{
    assert(merge_maps(a, b) =~= merge_maps(b, a));
}

/// Merging tables is associative.
pub proof fn lemma_merge_assoc(a: WordCounts, b: WordCounts, c: WordCounts)
    ensures
        merge_maps(merge_maps(a, b), c) == merge_maps(a, merge_maps(b, c)),
{
    assert(merge_maps(merge_maps(a, b), c) =~= merge_maps(a, merge_maps(b, c)));
}

/// The key-wise sum of a sequence of tables, first to last.
pub open spec fn merge_seq(ms: Seq<WordCounts>) -> WordCounts
    decreases ms.len(),
{
    if ms.len() == 0 {
        Map::empty()
    } else {
        merge_maps(merge_seq(ms.drop_last()), ms.last())
    }
}

/// Sum a vector of worker tables into one global table. The result records,
/// for every word, the sum of the word's counts across all the tables.
pub fn merge_tables(tables: &Vec<FrequencyTable>) -> (g: FrequencyTable)
    requires
        forall|i: int| 0 <= i < tables@.len() ==> (#[trigger] tables@[i]).wf(),
    ensures
        g.wf(),
        g@ == merge_seq(tables@.map_values(|t: FrequencyTable| t@)),
        forall|w: Seq<char>|
            count_in(g@, w) == sum_counts(tables@.map_values(|t: FrequencyTable| t@), w),
    {
    let ghost ms = tables@.map_values(|t: FrequencyTable| t@);
    let mut g = FrequencyTable::new();
    let n = tables.len();
    let mut i: usize = 0;
    while i < n
        invariant
            g.wf(),
            n == tables@.len(),
            0 <= i <= n,
            forall|j: int| 0 <= j < tables@.len() ==> (#[trigger] tables@[j]).wf(),
            ms == tables@.map_values(|t: FrequencyTable| t@),
            g@ == merge_seq(ms.take(i as int)),
        decreases n - i,
    {
        g.merge_from(&tables[i]);
        proof {
            let ii = i as int;
            assert(ms.take(ii + 1).drop_last() =~= ms.take(ii));
            assert(ms.take(ii + 1).last() == ms[ii]);
        }
        i = i + 1;
    }
    proof {
        assert(ms.take(n as int) =~= ms);
        lemma_merge_seq_counts(ms);
    }
    g
}

/// The arithmetic sum (saturating) of one word's count across tables.
pub open spec fn sum_counts(ms: Seq<WordCounts>, w: Seq<char>) -> u64
    decreases ms.len(),
{
    if ms.len() == 0 {
        0
    } else {
        sat_add(sum_counts(ms.drop_last(), w), count_in(ms.last(), w))
    }
}

/// Merging two tables sums each word's counts.
pub proof fn lemma_merge_count(a: WordCounts, b: WordCounts, w: Seq<char>)
    ensures
        count_in(merge_maps(a, b), w) == sat_add(count_in(a, w), count_in(b, w)),
{
    if a.contains_key(w) || b.contains_key(w) {
        assert(merge_maps(a, b).contains_key(w));
        assert(merge_maps(a, b)[w] == sat_add(count_in(a, w), count_in(b, w)));
    } else {
        assert(!merge_maps(a, b).contains_key(w));
    }
}

/// The merged table counts, for every word, the sum of the word's counts
/// across the merged tables.
pub proof fn lemma_merge_seq_counts(ms: Seq<WordCounts>)
    ensures
        forall|w: Seq<char>| count_in(merge_seq(ms), w) == #[trigger] sum_counts(ms, w),
    decreases ms.len(),
{
    if ms.len() > 0 {
        lemma_merge_seq_counts(ms.drop_last());
        assert forall|w: Seq<char>| count_in(merge_seq(ms), w) == #[trigger] sum_counts(
            ms,
            w,
        ) by {
            lemma_merge_count(merge_seq(ms.drop_last()), ms.last(), w);
            assert(count_in(merge_seq(ms.drop_last()), w) == sum_counts(ms.drop_last(), w));
            assert(sum_counts(ms, w) == sat_add(
                sum_counts(ms.drop_last(), w),
                count_in(ms.last(), w),
            ));
        }
    }
}

} // verus!
