//! Laws that relate counting and ranking: what holds of every run.

use vstd::prelude::*;
use crate::counts::counts_text;
use crate::counts::entry_view;
use crate::counts::lemma_qualifying_excludes_stop;
use crate::counts::lemma_seq_count_at;
use crate::counts::lemma_seq_count_zero;
use crate::counts::occ;
use crate::counts::qualifying;
use crate::counts::seq_count;
use crate::text::tokens_of;

verus! {

broadcast use vstd::seq_lib::group_to_multiset_ensures, vstd::multiset::group_multiset_axioms;

/// Entries with pairwise distinct words, each with a positive count: the shape
/// every `WordCount` keeps.
pub open spec fn distinct_entries(s: Seq<(Seq<char>, nat)>) -> bool {
    &&& forall|i: int, j: int| 0 <= i < j < s.len() ==> s[i].0 != s[j].0
    &&& forall|i: int| 0 <= i < s.len() ==> s[i].1 >= 1
}

/// Filtering correctness: a ranked list drawn from a count whose words all
/// avoid the stop set never lists a stop word.
pub proof fn lemma_ranked_excludes_stop(
    wc: Seq<(Seq<char>, nat)>,
    r: Seq<(String, usize)>,
    stop: Set<Seq<char>>,
)
    requires
        forall|i: int| 0 <= i < wc.len() ==> !stop.contains(wc[i].0),
        forall|a: int| 0 <= a < r.len() ==> wc.contains(#[trigger] entry_view(r[a])),
    ensures
        forall|a: int| 0 <= a < r.len() ==> !stop.contains(#[trigger] r[a].0@),
{
    assert forall|a: int| 0 <= a < r.len() implies !stop.contains(#[trigger] r[a].0@) by {
        let p = entry_view(r[a]);
        assert(wc.contains(p));
        let i = choose|i: int| 0 <= i < wc.len() && wc[i] == p;
        assert(!stop.contains(wc[i].0));
    }
}

/// Independence: counting reads one text and the stop set alone, so any two
/// counts of the same text record the same count for every word, whatever
/// other files a run holds.
pub proof fn lemma_count_determined(
    wc1: Seq<(Seq<char>, nat)>,
    wc2: Seq<(Seq<char>, nat)>,
    text: Seq<char>,
    stop: Set<Seq<char>>,
)
    requires
        counts_text(wc1, text, stop),
        counts_text(wc2, text, stop),
    ensures
        forall|w: Seq<char>| seq_count(wc1, w) == seq_count(wc2, w),
{
}

/// A word occurs a positive number of times exactly when the sequence holds it.
proof fn lemma_occ_contains(ws: Seq<Seq<char>>, w: Seq<char>)
    ensures
        occ(ws, w) >= 1 <==> ws.contains(w),
    decreases ws.len(),
{
    if ws.len() > 0 {
        lemma_occ_contains(ws.drop_last(), w);
        if ws.last() == w {
            assert(ws[ws.len() - 1] == w);
        } else {
            if ws.contains(w) {
                let i = choose|i: int| 0 <= i < ws.len() && ws[i] == w;
                assert(ws.drop_last()[i] == w);
            }
            if ws.drop_last().contains(w) {
                let i = choose|i: int| 0 <= i < ws.drop_last().len() && ws.drop_last()[i] == w;
                assert(ws[i] == w);
            }
        }
    }
}

/// Filtering correctness at the count level: a count of a text never gives a
/// stop word a positive count.
pub proof fn lemma_stop_word_never_counted(
    wc: Seq<(Seq<char>, nat)>,
    text: Seq<char>,
    stop: Set<Seq<char>>,
    w: Seq<char>,
)
    requires
        counts_text(wc, text, stop),
        stop.contains(w),
    ensures
        seq_count(wc, w) == 0,
{
    let q = qualifying(tokens_of(text), stop);
    lemma_qualifying_excludes_stop(tokens_of(text), stop);
    lemma_occ_contains(q, w);
    if q.contains(w) {
        let i = choose|i: int| 0 <= i < q.len() && q[i] == w;
        assert(!stop.contains(q[i]));
    }
}

/// A well-formed count of a text holds one entry per distinct qualifying word
/// of the text.
pub proof fn lemma_count_len(wc: Seq<(Seq<char>, nat)>, text: Seq<char>, stop: Set<Seq<char>>)
    requires
        distinct_entries(wc),
        counts_text(wc, text, stop),
    ensures
        wc.len() == qualifying(tokens_of(text), stop).to_set().len(),
{
    let q = qualifying(tokens_of(text), stop);
    let keys = Seq::new(wc.len(), |i: int| wc[i].0);
    assert(keys.no_duplicates());
    keys.unique_seq_to_set();
    assert forall|w: Seq<char>| keys.to_set().contains(w) implies q.to_set().contains(w) by {
        let i = choose|i: int| 0 <= i < keys.len() && keys[i] == w;
        lemma_seq_count_at(wc, i, w);
        lemma_occ_contains(q, w);
    }
    assert forall|w: Seq<char>| q.to_set().contains(w) implies keys.to_set().contains(w) by {
        lemma_occ_contains(q, w);
        assert(seq_count(wc, w) >= 1);
        if forall|i: int| 0 <= i < wc.len() ==> wc[i].0 != w {
            lemma_seq_count_zero(wc, w);
        }
        let i = choose|i: int| 0 <= i < wc.len() && wc[i].0 == w;
        assert(keys[i] == w);
    }
    assert(keys.to_set() =~= q.to_set());
}

/// An entry pair belongs to well-formed entries exactly when the count it
/// claims is the count the entries record, and is positive.
proof fn lemma_entry_membership(s: Seq<(Seq<char>, nat)>, p: (Seq<char>, nat))
    requires
        distinct_entries(s),
    ensures
        s.contains(p) <==> (p.1 >= 1 && seq_count(s, p.0) == p.1),
{
    if s.contains(p) {
        let i = choose|i: int| 0 <= i < s.len() && s[i] == p;
        lemma_seq_count_at(s, i, p.0);
    } else {
        if exists|i: int| 0 <= i < s.len() && s[i].0 == p.0 {
            let i = choose|i: int| 0 <= i < s.len() && s[i].0 == p.0;
            lemma_seq_count_at(s, i, p.0);
            assert(s[i] != p);
        } else {
            lemma_seq_count_zero(s, p.0);
        }
    }
}

/// Idempotence: two well-formed counts that record the same count for every
/// word hold the same multiset of (word, count) entries, so a repeated run
/// over the same text reproduces the same pairs, in whatever order.
pub proof fn lemma_counts_unique(s1: Seq<(Seq<char>, nat)>, s2: Seq<(Seq<char>, nat)>)
    requires
        distinct_entries(s1),
        distinct_entries(s2),
        forall|w: Seq<char>| seq_count(s1, w) == seq_count(s2, w),
    ensures
        s1.to_multiset() == s2.to_multiset(),
{
    assert(s1.no_duplicates()) by {
        assert forall|i: int, j: int|
            0 <= i < s1.len() && 0 <= j < s1.len() && i != j implies s1[i] != s1[j] by {
            if i < j {
                assert(s1[i].0 != s1[j].0);
            } else {
                assert(s1[j].0 != s1[i].0);
            }
        }
    }
    assert(s2.no_duplicates()) by {
        assert forall|i: int, j: int|
            0 <= i < s2.len() && 0 <= j < s2.len() && i != j implies s2[i] != s2[j] by {
            if i < j {
                assert(s2[i].0 != s2[j].0);
            } else {
                assert(s2[j].0 != s2[i].0);
            }
        }
    }
    s1.lemma_multiset_has_no_duplicates();
    s2.lemma_multiset_has_no_duplicates();
    assert forall|p: (Seq<char>, nat)| s1.to_multiset().count(p) == s2.to_multiset().count(
        p,
    ) by {
        lemma_entry_membership(s1, p);
        lemma_entry_membership(s2, p);
        if s1.contains(p) {
            assert(s1.to_multiset().count(p) == 1);
            assert(s2.contains(p));
            assert(s2.to_multiset().count(p) == 1);
        } else {
            assert(!s2.contains(p));
            assert(s1.to_multiset().count(p) == 0);
            assert(s2.to_multiset().count(p) == 0);
        }
    }
    assert(s1.to_multiset() =~= s2.to_multiset());
}

/// Idempotence: two well-formed counts of the same unchanged text under the
/// same stop set hold the same multiset of (word, count) entries, so a
/// repeated run reproduces the same pairs for every file, in whatever order.
pub proof fn lemma_recount_same_pairs(
    s1: Seq<(Seq<char>, nat)>,
    s2: Seq<(Seq<char>, nat)>,
    text: Seq<char>,
    stop: Set<Seq<char>>,
)
    requires
        distinct_entries(s1),
        distinct_entries(s2),
        counts_text(s1, text, stop),
        counts_text(s2, text, stop),
    ensures
        s1.to_multiset() == s2.to_multiset(),
{
    lemma_count_determined(s1, s2, text, stop);
    lemma_counts_unique(s1, s2);
}

} // verus!
