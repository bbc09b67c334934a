//! The two frequency reports: the table's pairs sorted by descending count
//! (ties by ascending word) or by ascending word, rendered one line per
//! word as `<word> : <count>`.
use crate::table::{pairs_of, FrequencyTable};
use vstd::prelude::*;
use vstd::string::StrSliceExecFns;
use vstd::string::StringExecFns;

verus! {

/// Lexicographic order on words, by code point.
pub open spec fn lex_le(a: Seq<char>, b: Seq<char>) -> bool
    decreases a.len(),
{
    if a.len() == 0 {
        true
    } else if b.len() == 0 {
        false
    } else if (a[0] as u32) < (b[0] as u32) {
        true
    } else if (b[0] as u32) < (a[0] as u32) {
        false
    } else {
        lex_le(a.drop_first(), b.drop_first())
    }
}

/// Any two words are ordered one way or the other.
pub proof fn lemma_lex_total(a: Seq<char>, b: Seq<char>)
    ensures
        lex_le(a, b) || lex_le(b, a),
    decreases a.len(),
{
    if a.len() > 0 && b.len() > 0 && (a[0] as u32) == (b[0] as u32) {
        lemma_lex_total(a.drop_first(), b.drop_first());
    }
}

/// Lexicographic order is transitive.
pub proof fn lemma_lex_trans(a: Seq<char>, b: Seq<char>, c: Seq<char>)
    requires
        lex_le(a, b),
        lex_le(b, c),
    ensures
        lex_le(a, c),
    decreases a.len(),
{
    if a.len() > 0 && b.len() > 0 && c.len() > 0 && (a[0] as u32) == (b[0] as u32) && (
    b[0] as u32) == (c[0] as u32) {
        lemma_lex_trans(a.drop_first(), b.drop_first(), c.drop_first());
    }
}

/// If the first `i` characters agree, the order is decided by the rest.
proof fn lemma_lex_skip(a: Seq<char>, b: Seq<char>, i: int)
    requires
        0 <= i <= a.len(),
        i <= b.len(),
        forall|j: int| 0 <= j < i ==> (a[j] as u32) == (b[j] as u32),
    ensures
        lex_le(a, b) == lex_le(a.skip(i), b.skip(i)),
    decreases i,
{
    if i == 0 {
        assert(a.skip(0) =~= a);
        assert(b.skip(0) =~= b);
    } else {
        let a1 = a.drop_first();
        let b1 = b.drop_first();
        assert((a[0] as u32) == (b[0] as u32));
        lemma_lex_skip(a1, b1, i - 1);
        assert(a1.skip(i - 1) =~= a.skip(i));
        assert(b1.skip(i - 1) =~= b.skip(i));
    }
}

/// Whether `a` precedes `b` (or equals it) lexicographically.
pub fn str_lex_le(a: &str, b: &str) -> (r: bool)
    ensures
        r == lex_le(a@, b@),
{
    let na = a.unicode_len();
    let nb = b.unicode_len();
    let mut i: usize = 0;
    while i < na && i < nb
        invariant
            na == a@.len(),
            nb == b@.len(),
            0 <= i <= na,
            0 <= i <= nb,
            forall|j: int| 0 <= j < i ==> (a@[j] as u32) == (b@[j] as u32),
        decreases na - i,
    {
        let ca = a.get_char(i) as u32;
        let cb = b.get_char(i) as u32;
        if ca != cb {
            proof {
                lemma_lex_skip(a@, b@, i as int);
                assert(a@.skip(i as int)[0] == a@[i as int]);
                assert(b@.skip(i as int)[0] == b@[i as int]);
            }
            return ca < cb;
        }
        i = i + 1;
    }
    proof {
        lemma_lex_skip(a@, b@, i as int);
        if i >= na {
            assert(a@.skip(i as int).len() == 0);
        } else {
            assert(b@.skip(i as int).len() == 0);
            assert(a@.skip(i as int).len() > 0);
        }
    }
    na <= nb
}

/// Every word precedes itself.
pub proof fn lemma_lex_refl(a: Seq<char>)
    ensures
        lex_le(a, a),
    decreases a.len(),
{
    if a.len() > 0 {
        lemma_lex_refl(a.drop_first());
    }
}

/// Characters with one code point are one character.
proof fn lemma_char_eq_from_u32(c1: char, c2: char)
    requires
        (c1 as u32) == (c2 as u32),
    ensures
        c1 == c2,
{
}

/// Two words that precede each other are the same word.
pub proof fn lemma_lex_antisym(a: Seq<char>, b: Seq<char>)
    requires
        lex_le(a, b),
        lex_le(b, a),
    ensures
        a == b,
    decreases a.len(),
{
    if a.len() == 0 {
        assert(b.len() == 0);
        assert(a =~= b);
    } else {
        assert(b.len() > 0);
        assert((a[0] as u32) == (b[0] as u32));
        lemma_char_eq_from_u32(a[0], b[0]);
        lemma_lex_antisym(a.drop_first(), b.drop_first());
        assert forall|i: int| 0 <= i < a.len() implies a[i] == b[i] by {
            if i > 0 {
                assert(a.drop_first()[i - 1] == a[i]);
                assert(b.drop_first()[i - 1] == b[i]);
            }
        }
        assert(a =~= b);
    }
}

/// The frequency-report order: descending count, ties by ascending word.
pub open spec fn count_order_le(p: (Seq<char>, u64), q: (Seq<char>, u64)) -> bool {
    p.1 > q.1 || (p.1 == q.1 && lex_le(p.0, q.0))
}

/// The alphabetic-report order: ascending word.
pub open spec fn word_order_le(p: (Seq<char>, u64), q: (Seq<char>, u64)) -> bool {
    lex_le(p.0, q.0)
}

/// Sorted for the frequency report.
pub open spec fn sorted_by_count(ps: Seq<(Seq<char>, u64)>) -> bool {
    forall|i: int, j: int|
        0 <= i < j < ps.len() ==> count_order_le(#[trigger] ps[i], #[trigger] ps[j])
}

/// Sorted for the alphabetic report.
pub open spec fn sorted_by_word(ps: Seq<(Seq<char>, u64)>) -> bool {
    forall|i: int, j: int|
        0 <= i < j < ps.len() ==> word_order_le(#[trigger] ps[i], #[trigger] ps[j])
}

proof fn lemma_count_order_total(p: (Seq<char>, u64), q: (Seq<char>, u64))
    ensures
        count_order_le(p, q) || count_order_le(q, p),
{
    lemma_lex_total(p.0, q.0);
}

proof fn lemma_count_order_trans(p: (Seq<char>, u64), q: (Seq<char>, u64), r: (Seq<char>, u64))
    requires
        count_order_le(p, q),
        count_order_le(q, r),
    ensures
        count_order_le(p, r),
{
    if p.1 == q.1 && q.1 == r.1 {
        lemma_lex_trans(p.0, q.0, r.0);
    }
}

proof fn lemma_word_order_total(p: (Seq<char>, u64), q: (Seq<char>, u64))
    ensures
        word_order_le(p, q) || word_order_le(q, p),
{
    lemma_lex_total(p.0, q.0);
}

proof fn lemma_word_order_trans(p: (Seq<char>, u64), q: (Seq<char>, u64), r: (Seq<char>, u64))
    requires
        word_order_le(p, q),
        word_order_le(q, r),
    ensures
        word_order_le(p, r),
{
    lemma_lex_trans(p.0, q.0, r.0);
}

/// Whether `p` precedes `q` in the frequency-report order.
fn count_order_exec(p: &(String, u64), q: &(String, u64)) -> (r: bool)
    ensures
        r == count_order_le((p.0@, p.1), (q.0@, q.1)),
{
    if p.1 > q.1 {
        true
    } else if p.1 == q.1 {
        str_lex_le(p.0.as_str(), q.0.as_str())
    } else {
        false
    }
}

/// Whether `p` precedes `q` in the alphabetic-report order.
fn word_order_exec(p: &(String, u64), q: &(String, u64)) -> (r: bool)
    ensures
        r == word_order_le((p.0@, p.1), (q.0@, q.1)),
{
    str_lex_le(p.0.as_str(), q.0.as_str())
}

/// Insert `x` into a vector sorted in the frequency-report order, keeping
/// it sorted.
fn insert_sorted_count(out: &mut Vec<(String, u64)>, x: (String, u64))
    requires
        sorted_by_count(pairs_of(old(out)@)),
    ensures
        sorted_by_count(pairs_of(final(out)@)),
        pairs_of(final(out)@).to_multiset() == pairs_of(old(out)@).to_multiset().insert(
            (x.0@, x.1),
        ),
{
    let ghost px = (x.0@, x.1);
    let ghost ps = pairs_of(out@);
    let n = out.len();
    let mut pos: usize = n;
    let mut j: usize = 0;
    while j < n
        invariant
            n == out@.len(),
            ps == pairs_of(out@),
            px == (x.0@, x.1),
            sorted_by_count(ps),
            0 <= j <= n,
            pos == n || (pos < j && count_order_le(px, ps[pos as int]) && forall|k: int|
                0 <= k < pos ==> !count_order_le(px, #[trigger] ps[k])),
            pos == n ==> forall|k: int| 0 <= k < j ==> !count_order_le(px, #[trigger] ps[k]),
        decreases n - j,
    {
        if pos == n {
            proof {
                assert(ps[j as int] == (out@[j as int].0@, out@[j as int].1));
            }
            if count_order_exec(&x, &out[j]) {
                pos = j;
            }
        }
        j = j + 1;
    }
    proof {
        assert forall|k: int| 0 <= k < pos implies count_order_le(#[trigger] ps[k], px) by {
            lemma_count_order_total(px, ps[k]);
        }
        assert forall|k: int| pos <= k < n implies count_order_le(px, #[trigger] ps[k]) by {
            if (pos as int) < k {
                assert(count_order_le(ps[pos as int], ps[k]));
                lemma_count_order_trans(px, ps[pos as int], ps[k]);
            }
        }
    }
    out.insert(pos, x);
    proof {
        broadcast use vstd::seq_lib::to_multiset_insert;

        let qs = pairs_of(out@);
        assert(qs =~= ps.insert(pos as int, px)) by {
            assert forall|k: int| 0 <= k < qs.len() implies qs[k] == ps.insert(pos as int, px)[k]
                by {}
        }
        assert(qs.to_multiset() == ps.to_multiset().insert(px));
        assert forall|i: int, j2: int| 0 <= i < j2 < qs.len() implies count_order_le(
            #[trigger] qs[i],
            #[trigger] qs[j2],
        ) by {
            let p = pos as int;
            if i < p && j2 < p {
            } else if i < p && j2 == p {
            } else if i < p && j2 > p {
            } else if i == p && j2 > p {
            } else {
            }
        }
    }
}

/// Insert `x` into a vector sorted in the alphabetic-report order, keeping
/// it sorted.
fn insert_sorted_word(out: &mut Vec<(String, u64)>, x: (String, u64))
    requires
        sorted_by_word(pairs_of(old(out)@)),
    ensures
        sorted_by_word(pairs_of(final(out)@)),
        pairs_of(final(out)@).to_multiset() == pairs_of(old(out)@).to_multiset().insert(
            (x.0@, x.1),
        ),
{
    let ghost px = (x.0@, x.1);
    let ghost ps = pairs_of(out@);
    let n = out.len();
    let mut pos: usize = n;
    let mut j: usize = 0;
    while j < n
        invariant
            n == out@.len(),
            ps == pairs_of(out@),
            px == (x.0@, x.1),
            sorted_by_word(ps),
            0 <= j <= n,
            pos == n || (pos < j && word_order_le(px, ps[pos as int]) && forall|k: int|
                0 <= k < pos ==> !word_order_le(px, #[trigger] ps[k])),
            pos == n ==> forall|k: int| 0 <= k < j ==> !word_order_le(px, #[trigger] ps[k]),
        decreases n - j,
    {
        if pos == n {
            proof {
                assert(ps[j as int] == (out@[j as int].0@, out@[j as int].1));
            }
            if word_order_exec(&x, &out[j]) {
                pos = j;
            }
        }
        j = j + 1;
    }
    proof {
        assert forall|k: int| 0 <= k < pos implies word_order_le(#[trigger] ps[k], px) by {
            lemma_word_order_total(px, ps[k]);
        }
        assert forall|k: int| pos <= k < n implies word_order_le(px, #[trigger] ps[k]) by {
            if (pos as int) < k {
                assert(word_order_le(ps[pos as int], ps[k]));
                lemma_word_order_trans(px, ps[pos as int], ps[k]);
            }
        }
    }
    out.insert(pos, x);
    proof {
        broadcast use vstd::seq_lib::to_multiset_insert;

        let qs = pairs_of(out@);
        assert(qs =~= ps.insert(pos as int, px)) by {
            assert forall|k: int| 0 <= k < qs.len() implies qs[k] == ps.insert(pos as int, px)[k]
                by {}
        }
        assert(qs.to_multiset() == ps.to_multiset().insert(px));
        assert forall|i: int, j2: int| 0 <= i < j2 < qs.len() implies word_order_le(
            #[trigger] qs[i],
            #[trigger] qs[j2],
        ) by {
            let p = pos as int;
            if i < p && j2 < p {
            } else if i < p && j2 == p {
            } else if i < p && j2 > p {
            } else if i == p && j2 > p {
            } else {
            }
        }
    }
}

/// The table's pairs sorted for the frequency report: descending count,
/// ties by ascending word — the same pairs, rearranged.
pub fn sorted_by_count_vec(t: &FrequencyTable) -> (v: Vec<(String, u64)>)
    ensures
        sorted_by_count(pairs_of(v@)),
        pairs_of(v@).to_multiset() == t.pairs().to_multiset(),
{
    let src = t.entries_vec();
    let ghost ps = pairs_of(src@);
    let n = src.len();
    let mut out: Vec<(String, u64)> = Vec::new();
    proof {
        assert(pairs_of(out@) =~= ps.take(0));
    }
    let mut i: usize = 0;
    while i < n
        invariant
            n == src@.len(),
            ps == pairs_of(src@),
            0 <= i <= n,
            sorted_by_count(pairs_of(out@)),
            pairs_of(out@).to_multiset() == ps.take(i as int).to_multiset(),
        decreases n - i,
    {
        let w = src[i].0.clone();
        let c = src[i].1;
        proof {
            assert(ps[i as int] == (src@[i as int].0@, src@[i as int].1));
        }
        insert_sorted_count(&mut out, (w, c));
        proof {
            broadcast use vstd::seq_lib::group_to_multiset_ensures;

            let ii = i as int;
            assert(ps.take(ii + 1) =~= ps.take(ii).push(ps[ii]));
        }
        i = i + 1;
    }
    proof {
        assert(ps.take(n as int) =~= ps);
    }
    out
}

/// The table's pairs sorted for the alphabetic report: ascending word — the
/// same pairs, rearranged.
pub fn sorted_by_word_vec(t: &FrequencyTable) -> (v: Vec<(String, u64)>)
    ensures
        sorted_by_word(pairs_of(v@)),
        pairs_of(v@).to_multiset() == t.pairs().to_multiset(),
{
    let src = t.entries_vec();
    let ghost ps = pairs_of(src@);
    let n = src.len();
    let mut out: Vec<(String, u64)> = Vec::new();
    proof {
        assert(pairs_of(out@) =~= ps.take(0));
    }
    let mut i: usize = 0;
    while i < n
        invariant
            n == src@.len(),
            ps == pairs_of(src@),
            0 <= i <= n,
            sorted_by_word(pairs_of(out@)),
            pairs_of(out@).to_multiset() == ps.take(i as int).to_multiset(),
        decreases n - i,
    {
        let w = src[i].0.clone();
        let c = src[i].1;
        proof {
            assert(ps[i as int] == (src@[i as int].0@, src@[i as int].1));
        }
        insert_sorted_word(&mut out, (w, c));
        proof {
            broadcast use vstd::seq_lib::group_to_multiset_ensures;

            let ii = i as int;
            assert(ps.take(ii + 1) =~= ps.take(ii).push(ps[ii]));
        }
        i = i + 1;
    }
    proof {
        assert(ps.take(n as int) =~= ps);
    }
    out
}

proof fn lemma_count_order_antisym(p: (Seq<char>, u64), q: (Seq<char>, u64))
    requires
        count_order_le(p, q),
        count_order_le(q, p),
    ensures
        p == q,
{
    lemma_lex_antisym(p.0, q.0);
}

/// There is exactly one frequency-report ordering of any collection of
/// pairs: two sorted sequences with the same pairs are identical.
pub proof fn lemma_sorted_by_count_unique(v1: Seq<(Seq<char>, u64)>, v2: Seq<(Seq<char>, u64)>)
    requires
        sorted_by_count(v1),
        sorted_by_count(v2),
        v1.to_multiset() == v2.to_multiset(),
    ensures
        v1 == v2,
    decreases v1.len(),
{
    broadcast use vstd::seq_lib::group_to_multiset_ensures;

    if v1.len() == 0 {
        assert(v1.to_multiset().len() == v1.len());
        assert(v2.to_multiset().len() == v2.len());
        assert(v2.len() == 0);
        assert(v1 =~= v2);
    } else {
        assert(v1.to_multiset().len() == v1.len());
        assert(v2.to_multiset().len() == v2.len());
        assert(v2.len() == v1.len());
        assert(count_order_le(v1[0], v2[0])) by {
            assert(v2.contains(v2[0]));
            assert(v1.to_multiset().count(v2[0]) > 0);
            assert(v1.contains(v2[0]));
            let k = choose|k: int| 0 <= k < v1.len() && v1[k] == v2[0];
            if k == 0 {
                lemma_lex_refl(v1[0].0);
            }
        }
        assert(count_order_le(v2[0], v1[0])) by {
            assert(v1.contains(v1[0]));
            assert(v2.to_multiset().count(v1[0]) > 0);
            assert(v2.contains(v1[0]));
            let k = choose|k: int| 0 <= k < v2.len() && v2[k] == v1[0];
            if k == 0 {
                lemma_lex_refl(v2[0].0);
            }
        }
        lemma_count_order_antisym(v1[0], v2[0]);
        let r1 = v1.drop_first();
        let r2 = v2.drop_first();
        assert(v1.remove(0) =~= r1);
        assert(v2.remove(0) =~= r2);
        assert(r1.to_multiset() == v1.to_multiset().remove(v1[0]));
        assert(r2.to_multiset() == v2.to_multiset().remove(v2[0]));
        assert(sorted_by_count(r1)) by {
            assert forall|i: int, j: int| 0 <= i < j < r1.len() implies count_order_le(
                #[trigger] r1[i],
                #[trigger] r1[j],
            ) by {
                assert(r1[i] == v1[i + 1] && r1[j] == v1[j + 1]);
            }
        }
        assert(sorted_by_count(r2)) by {
            assert forall|i: int, j: int| 0 <= i < j < r2.len() implies count_order_le(
                #[trigger] r2[i],
                #[trigger] r2[j],
            ) by {
                assert(r2[i] == v2[i + 1] && r2[j] == v2[j + 1]);
            }
        }
        lemma_sorted_by_count_unique(r1, r2);
        assert forall|i: int| 0 <= i < v1.len() implies v1[i] == v2[i] by {
            if i > 0 {
                assert(r1[i - 1] == v1[i] && r2[i - 1] == v2[i]);
            }
        }
        assert(v1 =~= v2);
    }
}

/// With pairwise-distinct words, there is exactly one alphabetic ordering:
/// two word-sorted sequences with the same pairs are identical.
pub proof fn lemma_sorted_by_word_unique(v1: Seq<(Seq<char>, u64)>, v2: Seq<(Seq<char>, u64)>)
    requires
        sorted_by_word(v1),
        sorted_by_word(v2),
        crate::table::distinct_keys(v1),
        crate::table::distinct_keys(v2),
        v1.to_multiset() == v2.to_multiset(),
    ensures
        v1 == v2,
    decreases v1.len(),
{
    broadcast use vstd::seq_lib::group_to_multiset_ensures;

    if v1.len() == 0 {
        assert(v1.to_multiset().len() == v1.len());
        assert(v2.to_multiset().len() == v2.len());
        assert(v2.len() == 0);
        assert(v1 =~= v2);
    } else {
        assert(v1.to_multiset().len() == v1.len());
        assert(v2.to_multiset().len() == v2.len());
        assert(v2.len() == v1.len());
        assert(v1.contains(v1[0]));
        assert(v2.to_multiset().count(v1[0]) > 0);
        assert(v2.contains(v1[0]));
        let k = choose|k: int| 0 <= k < v2.len() && v2[k] == v1[0];
        if k > 0 {
            // v2[0]'s word would repeat at position k
            assert(word_order_le(v2[0], v2[k]));
            assert(lex_le(v1[0].0, v2[0].0)) by {
                assert(v2.contains(v2[0]));
                assert(v1.to_multiset().count(v2[0]) > 0);
                assert(v1.contains(v2[0]));
                let m = choose|m: int| 0 <= m < v1.len() && v1[m] == v2[0];
                if m == 0 {
                    lemma_lex_refl(v1[0].0);
                }
            }
            lemma_lex_antisym(v2[0].0, v2[k].0);
            assert(v2[0].0 == v2[k].0);
            assert(false);
        }
        assert(v2[0] == v1[0]);
        let r1 = v1.drop_first();
        let r2 = v2.drop_first();
        assert(v1.remove(0) =~= r1);
        assert(v2.remove(0) =~= r2);
        assert(r1.to_multiset() == v1.to_multiset().remove(v1[0]));
        assert(r2.to_multiset() == v2.to_multiset().remove(v2[0]));
        assert(sorted_by_word(r1) && crate::table::distinct_keys(r1)) by {
            assert forall|i: int, j: int|
                0 <= i < j < r1.len() implies word_order_le(#[trigger] r1[i], #[trigger] r1[j])
                && r1[i].0 != r1[j].0 by {
                assert(r1[i] == v1[i + 1] && r1[j] == v1[j + 1]);
            }
        }
        assert(sorted_by_word(r2) && crate::table::distinct_keys(r2)) by {
            assert forall|i: int, j: int|
                0 <= i < j < r2.len() implies word_order_le(#[trigger] r2[i], #[trigger] r2[j])
                && r2[i].0 != r2[j].0 by {
                assert(r2[i] == v2[i + 1] && r2[j] == v2[j + 1]);
            }
        }
        lemma_sorted_by_word_unique(r1, r2);
        assert forall|i: int| 0 <= i < v1.len() implies v1[i] == v2[i] by {
            if i > 0 {
                assert(r1[i - 1] == v1[i] && r2[i - 1] == v2[i]);
            }
        }
        assert(v1 =~= v2);
    }
}

/// The decimal digit character for `d`.
pub open spec fn dec_digit_char(d: u64) -> char {
    if d == 0 {
        '0'
    } else if d == 1 {
        '1'
    } else if d == 2 {
        '2'
    } else if d == 3 {
        '3'
    } else if d == 4 {
        '4'
    } else if d == 5 {
        '5'
    } else if d == 6 {
        '6'
    } else if d == 7 {
        '7'
    } else if d == 8 {
        '8'
    } else {
        '9'
    }
}

/// The decimal rendering of `n`, most significant digit first.
pub open spec fn dec_str(n: u64) -> Seq<char>
    decreases n,
{
    if n < 10 {
        seq![dec_digit_char(n)]
    } else {
        dec_str(n / 10).push(dec_digit_char(n % 10))
    }
}

/// One report line: the word, the separator, the decimal count, a newline.
pub open spec fn line_of(p: (Seq<char>, u64)) -> Seq<char> {
    p.0 + seq![' ', ':', ' '] + dec_str(p.1) + seq!['\n']
}

/// A whole report body: one line per pair, in order.
pub open spec fn render_of(ps: Seq<(Seq<char>, u64)>) -> Seq<char>
    decreases ps.len(),
{
    if ps.len() == 0 {
        Seq::empty()
    } else {
        render_of(ps.drop_last()) + line_of(ps.last())
    }
}

/// The decimal digit of `d` as a string slice.
fn digit_str(d: u64) -> (r: &'static str)
    requires
        d < 10,
    ensures
        r@ == seq![dec_digit_char(d)],
{
    match d {
        0 => {
            proof {
                reveal_strlit("0");
                assert("0"@ =~= seq![dec_digit_char(0u64)]);
            }
            "0"
        },
        1 => {
            proof {
                reveal_strlit("1");
                assert("1"@ =~= seq![dec_digit_char(1u64)]);
            }
            "1"
        },
        2 => {
            proof {
                reveal_strlit("2");
                assert("2"@ =~= seq![dec_digit_char(2u64)]);
            }
            "2"
        },
        3 => {
            proof {
                reveal_strlit("3");
                assert("3"@ =~= seq![dec_digit_char(3u64)]);
            }
            "3"
        },
        4 => {
            proof {
                reveal_strlit("4");
                assert("4"@ =~= seq![dec_digit_char(4u64)]);
            }
            "4"
        },
        5 => {
            proof {
                reveal_strlit("5");
                assert("5"@ =~= seq![dec_digit_char(5u64)]);
            }
            "5"
        },
        6 => {
            proof {
                reveal_strlit("6");
                assert("6"@ =~= seq![dec_digit_char(6u64)]);
            }
            "6"
        },
        7 => {
            proof {
                reveal_strlit("7");
                assert("7"@ =~= seq![dec_digit_char(7u64)]);
            }
            "7"
        },
        8 => {
            proof {
                reveal_strlit("8");
                assert("8"@ =~= seq![dec_digit_char(8u64)]);
            }
            "8"
        },
        _ => {
            proof {
                reveal_strlit("9");
                assert("9"@ =~= seq![dec_digit_char(9u64)]);
            }
            "9"
        },
    }
}

/// Append the decimal rendering of `n`.
fn push_dec(n: u64, out: &mut String)
    ensures
        final(out)@ == old(out)@ + dec_str(n),
    decreases n,
{
    if n >= 10 {
        push_dec(n / 10, out);
    }
    out.append(digit_str(n % 10));
    proof {
        if n < 10 {
            assert(n % 10 == n);
            assert(out@ =~= old(out)@ + dec_str(n));
        } else {
            assert(out@ =~= old(out)@ + dec_str(n));
        }
    }
}

/// Render a report body: one `<word> : <count>` line per pair, in order.
pub fn render_report(v: &Vec<(String, u64)>) -> (s: String)
    ensures
        s@ == render_of(pairs_of(v@)),
{
    proof {
        reveal_strlit(" : ");
        reveal_strlit("\n");
        assert(" : "@ =~= seq![' ', ':', ' ']);
        assert("\n"@ =~= seq!['\n']);
    }
    let ghost ps = pairs_of(v@);
    let n = v.len();
    let mut out = String::new();
    let mut i: usize = 0;
    while i < n
        invariant
            n == v@.len(),
            ps == pairs_of(v@),
            0 <= i <= n,
            " : "@ =~= seq![' ', ':', ' '],
            "\n"@ =~= seq!['\n'],
            out@ == render_of(ps.take(i as int)),
        decreases n - i,
    {
        proof {
            assert(ps[i as int] == (v@[i as int].0@, v@[i as int].1));
        }
        out.append(v[i].0.as_str());
        out.append(" : ");
        push_dec(v[i].1, &mut out);
        out.append("\n");
        proof {
            let ii = i as int;
            assert(ps.take(ii + 1).drop_last() =~= ps.take(ii));
            assert(ps.take(ii + 1).last() == ps[ii]);
            assert(out@ =~= render_of(ps.take(ii)) + line_of(ps[ii]));
        }
        i = i + 1;
    }
    proof {
        assert(ps.take(n as int) =~= ps);
    }
    out
}

} // verus!
