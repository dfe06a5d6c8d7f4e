//! Ranking: the most frequent words of a count, in descending count order,
//! truncated to a requested length.

use vstd::prelude::*;
use crate::counts::WordCount;
use crate::counts::count_words;
use crate::counts::entries_view;
use crate::counts::entry_view;
use crate::counts::lemma_seq_count_at;
use crate::counts::occ;
use crate::counts::qualifying;
use crate::laws::lemma_count_len;
use crate::laws::lemma_ranked_excludes_stop;
use crate::stop::StopWords;
use crate::text::tokens_of;

verus! {

broadcast use vstd::seq_lib::group_to_multiset_ensures, vstd::multiset::group_multiset_axioms;

/// Whether some entry of `s` lists the word `w`.
pub open spec fn word_listed(s: Seq<(String, usize)>, w: Seq<char>) -> bool {
    exists|i: int| 0 <= i < s.len() && s[i].0@ == w
}

/// The top `n` entries of `wc`, sorted by descending count. The result holds
/// `min(n, wc@.len())` entries, every one an entry of `wc`, with distinct
/// words; any word of `wc` left out counts no more than any word kept. Among
/// equal counts the choice and order are unspecified.
pub fn rank(wc: &WordCount, n: usize) -> (r: Vec<(String, usize)>)
    requires
        wc.wf(),
    ensures
        r@.len() == vstd::math::min(n as int, wc@.len() as int),
        forall|a: int, b: int| 0 <= a <= b < r@.len() ==> r@[a].1 >= r@[b].1,
        forall|a: int| 0 <= a < r@.len() ==> wc@.contains(#[trigger] entry_view(r@[a])),
        forall|a: int, b: int| 0 <= a < b < r@.len() ==> r@[a].0@ != r@[b].0@,
        forall|k: int|
            0 <= k < wc@.len() && !word_listed(r@, wc@[k].0) ==> forall|a: int|
                0 <= a < r@.len() ==> wc@[k].1 <= #[trigger] r@[a].1,
{
    let total = wc.len();
    let mut src: Vec<(String, usize)> = Vec::new();
    let mut i: usize = 0;
    while i < total
        invariant
            total == wc@.len(),
            i <= total,
            entries_view(src@) == wc@.take(i as int),
            src@.len() == i,
        decreases total - i,
    {
        let ghost sp = src@;
        let e = wc.entry(i);
        src.push(e);
        proof {
            assert(entries_view(src@) =~= entries_view(sp).push(entry_view(e)));
            assert(wc@.take(i + 1) =~= wc@.take(i as int).push(wc@[i as int]));
        }
        i = i + 1;
    }
    proof {
        assert(wc@.take(total as int) =~= wc@);
        assert(entries_view(src@) == wc@);
        assert forall|j: int, k: int|
            0 <= j < k < src@.len() implies src@[j].0@ != src@[k].0@ by {
            assert(entries_view(src@)[j] == entry_view(src@[j]));
            assert(entries_view(src@)[k] == entry_view(src@[k]));
            assert(wc@[j].0 != wc@[k].0);
        }
    }
    let ghost w0 = wc@;
    let mut out: Vec<(String, usize)> = Vec::new();
    while out.len() < n && src.len() > 0
        invariant
            wc.wf(),
            w0 == wc@,
            out@.len() + src@.len() == w0.len(),
            out@.len() <= n,
            entries_view(out@).to_multiset().add(entries_view(src@).to_multiset())
                == w0.to_multiset(),
            forall|j: int, k: int| 0 <= j < k < src@.len() ==> src@[j].0@ != src@[k].0@,
            forall|a: int, j: int|
                0 <= a < out@.len() && 0 <= j < src@.len() ==> out@[a].0@ != src@[j].0@,
            forall|a: int, b: int| 0 <= a < b < out@.len() ==> out@[a].0@ != out@[b].0@,
            forall|a: int, b: int| 0 <= a <= b < out@.len() ==> out@[a].1 >= out@[b].1,
            forall|a: int, j: int|
                0 <= a < out@.len() && 0 <= j < src@.len() ==> out@[a].1 >= src@[j].1,
            forall|a: int| 0 <= a < out@.len() ==> w0.contains(#[trigger] entry_view(out@[a])),
        decreases n - out@.len(),
    {
        let mut m: usize = 0;
        let mut b: usize = 1;
        while b < src.len()
            invariant
                src@.len() > 0,
                m < src@.len(),
                b <= src@.len(),
                forall|j: int| 0 <= j < b ==> src@[j].1 <= src@[m as int].1,
            decreases src@.len() - b,
        {
            if src[b].1 > src[m].1 {
                m = b;
            }
            b = b + 1;
        }
        let ghost so = src@;
        let ghost oo = out@;
        let ghost x = entry_view(so[m as int]);
        proof {
            assert(entries_view(so)[m as int] == x);
            assert(entries_view(so).contains(x));
        }
        let e = src.remove(m);
        out.push(e);
        proof {
            assert(entries_view(src@) =~= entries_view(so).remove(m as int));
            assert(entries_view(out@) =~= entries_view(oo).push(x));
            let mo = entries_view(oo).to_multiset();
            let ms = entries_view(so).to_multiset();
            assert(ms.count(x) > 0);
            assert(entries_view(src@).to_multiset() == ms.remove(x));
            assert(entries_view(out@).to_multiset() == mo.insert(x));
            assert(mo.insert(x).add(ms.remove(x)) =~= mo.add(ms));
            assert(w0.contains(x)) by {
                assert(w0.to_multiset().count(x) > 0);
            }
            assert forall|j: int| 0 <= j < src@.len() implies (if j < m {
                src@[j] == so[j]
            } else {
                src@[j] == so[j + 1]
            }) by {
                assert(src@ == so.remove(m as int));
            }
        }
    }
    proof {
        assert(out@.len() == vstd::math::min(n as int, w0.len() as int));
        assert forall|k: int|
            0 <= k < w0.len() && !word_listed(out@, w0[k].0) implies forall|a: int|
            0 <= a < out@.len() ==> w0[k].1 <= #[trigger] out@[a].1 by {
            let p = w0[k];
            assert(w0.contains(p));
            assert(w0.to_multiset().count(p) > 0);
            if entries_view(out@).to_multiset().count(p) > 0 {
                assert(entries_view(out@).contains(p));
                let a = choose|a: int|
                    0 <= a < entries_view(out@).len() && entries_view(out@)[a] == p;
                assert(out@[a].0@ == p.0);
                assert(word_listed(out@, p.0));
            }
            assert(entries_view(src@).to_multiset().count(p) > 0);
            assert(entries_view(src@).contains(p));
            let j = choose|j: int|
                0 <= j < entries_view(src@).len() && entries_view(src@)[j] == p;
            assert(src@[j].1 == p.1);
            assert forall|a: int| 0 <= a < out@.len() implies w0[k].1 <= #[trigger] out@[a].1 by {
                assert(out@[a].1 >= src@[j].1);
            }
        }
    }
    out
}

/// Counts `text` and ranks its words: the computing step run for one file.
/// The result lists, in descending count order, `min(n, d)` distinct words
/// where `d` is the number of distinct qualifying words of `text`; no listed
/// word is a stop word, and each listed count is exactly the word's number of
/// qualifying occurrences.
pub fn top_words(text: &str, stop: &StopWords, n: usize) -> (r: Vec<(String, usize)>)
    ensures
        r@.len() == vstd::math::min(
            n as int,
            qualifying(tokens_of(text@), stop@).to_set().len() as int,
        ),
        forall|a: int, b: int| 0 <= a <= b < r@.len() ==> r@[a].1 >= r@[b].1,
        forall|a: int, b: int| 0 <= a < b < r@.len() ==> r@[a].0@ != r@[b].0@,
        forall|a: int| 0 <= a < r@.len() ==> !stop@.contains(#[trigger] r@[a].0@),
        forall|a: int|
            0 <= a < r@.len() ==> #[trigger] (r@[a].1 as nat) == occ(
                qualifying(tokens_of(text@), stop@),
                r@[a].0@,
            ),
{
    let wc = count_words(text, stop);
    proof {
        lemma_count_len(wc@, text@, stop@);
    }
    let r = rank(&wc, n);
    proof {
        lemma_ranked_excludes_stop(wc@, r@, stop@);
        assert forall|a: int|
            0 <= a < r@.len() implies #[trigger] (r@[a].1 as nat) == occ(
            qualifying(tokens_of(text@), stop@),
            r@[a].0@,
        ) by {
            let p = entry_view(r@[a]);
            assert(wc@.contains(p));
            let i = choose|i: int| 0 <= i < wc@.len() && wc@[i] == p;
            lemma_seq_count_at(wc@, i, p.0);
        }
    }
    r
}

} // verus!
