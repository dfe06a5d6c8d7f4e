//! Counting word occurrences: the mapping from word to count that one file's
//! text produces.

use vstd::prelude::*;
use crate::stop::StopWords;
use crate::text::lower_of;
use crate::text::lowercase;
use crate::text::tokenize;
use crate::text::tokens_of;

verus! {

/// The mathematical view of one counted entry: the word and its count.
pub open spec fn entry_view(e: (String, usize)) -> (Seq<char>, nat) {
    (e.0@, e.1 as nat)
}

/// The views of a sequence of entries.
pub open spec fn entries_view(s: Seq<(String, usize)>) -> Seq<(Seq<char>, nat)> {
    Seq::new(s.len(), |i: int| entry_view(s[i]))
}

/// The count the entries give `w`: the sum of the counts of the entries whose
/// word is `w`.
pub open spec fn seq_count(s: Seq<(Seq<char>, nat)>, w: Seq<char>) -> nat
    decreases s.len(),
{
    if s.len() == 0 {
        0
    } else {
        seq_count(s.drop_last(), w) + if s.last().0 == w {
            s.last().1
        } else {
            0
        }
    }
}

/// The total count mass of the entries.
pub open spec fn seq_mass(s: Seq<(Seq<char>, nat)>) -> nat
    decreases s.len(),
{
    if s.len() == 0 {
        0
    } else {
        seq_mass(s.drop_last()) + s.last().1
    }
}

/// The number of occurrences of `w` in `ws`.
pub open spec fn occ(ws: Seq<Seq<char>>, w: Seq<char>) -> nat
    decreases ws.len(),
{
    if ws.len() == 0 {
        0
    } else {
        occ(ws.drop_last(), w) + if ws.last() == w {
            1nat
        } else {
            0nat
        }
    }
}

/// The words that are counted: each token lowercased, stop words dropped, in
/// token order.
pub open spec fn qualifying(toks: Seq<Seq<char>>, stop: Set<Seq<char>>) -> Seq<Seq<char>>
    decreases toks.len(),
{
    if toks.len() == 0 {
        Seq::empty()
    } else {
        let rest = qualifying(toks.drop_last(), stop);
        let low = lower_of(toks.last());
        if stop.contains(low) {
            rest
        } else {
            rest.push(low)
        }
    }
}

/// No qualifying word is a stop word.
pub proof fn lemma_qualifying_excludes_stop(toks: Seq<Seq<char>>, stop: Set<Seq<char>>)
    ensures
        forall|i: int|
            0 <= i < qualifying(toks, stop).len() ==> !stop.contains(qualifying(toks, stop)[i]),
    decreases toks.len(),
{
    if toks.len() > 0 {
        lemma_qualifying_excludes_stop(toks.drop_last(), stop);
        let rest = qualifying(toks.drop_last(), stop);
        let low = lower_of(toks.last());
        if !stop.contains(low) {
            assert(qualifying(toks, stop) == rest.push(low));
            assert forall|i: int|
                0 <= i < qualifying(toks, stop).len() implies !stop.contains(
                qualifying(toks, stop)[i],
            ) by {
                if i < rest.len() {
                    assert(qualifying(toks, stop)[i] == rest[i]);
                } else {
                    assert(qualifying(toks, stop)[i] == low);
                }
            }
        }
    }
}

/// There are never more qualifying words than tokens.
pub proof fn lemma_qualifying_len(toks: Seq<Seq<char>>, stop: Set<Seq<char>>)
    ensures
        qualifying(toks, stop).len() <= toks.len(),
    decreases toks.len(),
{
    if toks.len() > 0 {
        lemma_qualifying_len(toks.drop_last(), stop);
    }
}

proof fn lemma_count_le_mass(s: Seq<(Seq<char>, nat)>, i: int)
    requires
        0 <= i < s.len(),
    ensures
        s[i].1 <= seq_mass(s),
    decreases s.len(),
{
    if i < s.len() - 1 {
        lemma_count_le_mass(s.drop_last(), i);
    }
}

proof fn lemma_seq_count_update(s: Seq<(Seq<char>, nat)>, i: int, w: Seq<char>)
    requires
        0 <= i < s.len(),
    ensures
        seq_count(s.update(i, (s[i].0, (s[i].1 + 1) as nat)), w) == seq_count(s, w) + if s[i].0
            == w {
            1nat
        } else {
            0nat
        },
        seq_mass(s.update(i, (s[i].0, (s[i].1 + 1) as nat))) == seq_mass(s) + 1,
    decreases s.len(),
{
    let t = s.update(i, (s[i].0, (s[i].1 + 1) as nat));
    if i == s.len() - 1 {
        assert(t.drop_last() =~= s.drop_last());
    } else {
        assert(t.drop_last() =~= s.drop_last().update(i, (s[i].0, (s[i].1 + 1) as nat)));
        lemma_seq_count_update(s.drop_last(), i, w);
    }
}

/// Entries none of which lists `w` count it zero times.
pub proof fn lemma_seq_count_zero(s: Seq<(Seq<char>, nat)>, w: Seq<char>)
    requires
        forall|i: int| 0 <= i < s.len() ==> s[i].0 != w,
    ensures
        seq_count(s, w) == 0,
    decreases s.len(),
{
    if s.len() > 0 {
        lemma_seq_count_zero(s.drop_last(), w);
    }
}

/// With distinct words, the count of `w` is the count its one entry records.
pub proof fn lemma_seq_count_at(s: Seq<(Seq<char>, nat)>, i: int, w: Seq<char>)
    requires
        0 <= i < s.len(),
        s[i].0 == w,
        forall|j: int, k: int| 0 <= j < k < s.len() ==> s[j].0 != s[k].0,
    ensures
        seq_count(s, w) == s[i].1,
    decreases s.len(),
{
    if i == s.len() - 1 {
        lemma_seq_count_zero(s.drop_last(), w);
    } else {
        lemma_seq_count_at(s.drop_last(), i, w);
    }
}

proof fn lemma_mass_take_le(s: Seq<(Seq<char>, nat)>, j: int)
    requires
        0 <= j <= s.len(),
    ensures
        seq_mass(s.take(j)) <= seq_mass(s),
    decreases s.len() - j,
{
    if j == s.len() {
        assert(s.take(j) =~= s);
    } else {
        assert(s.take(j + 1).drop_last() =~= s.take(j));
        assert(s.take(j + 1).last() == s[j]);
        lemma_mass_take_le(s, j + 1);
    }
}

/// A mapping from word to occurrence count, built incrementally while one
/// file's text is read. Words are distinct and every count is positive.
pub struct WordCount {
    entries: Vec<(String, usize)>,
}

impl View for WordCount {
    type V = Seq<(Seq<char>, nat)>;

    closed spec fn view(&self) -> Seq<(Seq<char>, nat)> {
        entries_view(self.entries@)
    }
}

impl WordCount {
    /// Distinct words, each with a positive count.
    pub open spec fn wf(&self) -> bool {
        &&& forall|i: int, j: int| 0 <= i < j < self@.len() ==> self@[i].0 != self@[j].0
        &&& forall|i: int| 0 <= i < self@.len() ==> self@[i].1 >= 1
    }

    /// The count recorded for `w`.
    pub open spec fn spec_count(&self, w: Seq<char>) -> nat {
        seq_count(self@, w)
    }

    /// The total of all recorded counts.
    pub open spec fn mass(&self) -> nat {
        seq_mass(self@)
    }

    /// Whether some entry records `w`.
    pub open spec fn has_word(&self, w: Seq<char>) -> bool {
        exists|i: int| 0 <= i < self@.len() && self@[i].0 == w
    }

    /// An empty mapping.
    pub fn new() -> (r: WordCount)
        ensures
            r@ == Seq::<(Seq<char>, nat)>::empty(),
            r.wf(),
    {
        let entries: Vec<(String, usize)> = Vec::new();
        proof {
            assert(entries_view(entries@) =~= Seq::<(Seq<char>, nat)>::empty());
        }
        WordCount { entries }
    }

    /// The number of distinct words recorded.
    pub fn len(&self) -> (n: usize)
        ensures
            n == self@.len(),
    {
        self.entries.len()
    }

    /// The word and count of the entry at `i`.
    pub fn entry(&self, i: usize) -> (e: (String, usize))
        requires
            i < self@.len(),
        ensures
            entry_view(e) == self@[i as int],
    {
        let e = &self.entries[i];
        (e.0.clone(), e.1)
    }

    /// Records one more occurrence of `word`.
    pub fn increment(&mut self, word: String)
        requires
            old(self).wf(),
            old(self).mass() < usize::MAX,
        ensures
            final(self).wf(),
            final(self).mass() == old(self).mass() + 1,
            forall|w: Seq<char>|
                final(self).spec_count(w) == old(self).spec_count(w) + if w == word@ {
                    1nat
                } else {
                    0nat
                },
            forall|i: int|
                0 <= i < final(self)@.len() ==> final(self)@[i].0 == word@ || old(self).has_word(
                    final(self)@[i].0,
                ),
    {
        let n = self.entries.len();
        let mut i: usize = 0;
        while i < n
            invariant
                n == self.entries@.len(),
                i <= n,
                forall|j: int| 0 <= j < i ==> self.entries@[j].0@ != word@,
                *self == *old(self),
                old(self).wf(),
                old(self).mass() < usize::MAX,
            decreases n - i,
        {
            if self.entries[i].0.eq(&word) {
                let c = self.entries[i].1;
                proof {
                    assert(self@[i as int] == entry_view(self.entries@[i as int]));
                    assert(self@[i as int].0 == word@);
                    assert(self@[i as int].1 == c as nat);
                    lemma_count_le_mass(self@, i as int);
                    assert(c as nat <= seq_mass(old(self)@));
                    assert((c as nat) < usize::MAX);
                }
                let k = self.entries[i].0.clone();
                self.entries[i] = (k, c + 1);
                proof {
                    let s0 = old(self)@;
                    assert(self@ =~= s0.update(i as int, (s0[i as int].0, (s0[i as int].1
                        + 1) as nat)));
                    assert forall|m: int| 0 <= m < self@.len() implies self@[m].0 == s0[m].0
                        && self@[m].1 >= 1 by {
                        assert(s0[m].1 >= 1);
                    }
                    assert forall|a: int, b: int|
                        0 <= a < b < self@.len() implies self@[a].0 != self@[b].0 by {
                        assert(self@[a].0 == s0[a].0);
                        assert(self@[b].0 == s0[b].0);
                    }
                    assert forall|w: Seq<char>|
                        seq_count(self@, w) == seq_count(s0, w) + if w == word@ {
                            1nat
                        } else {
                            0nat
                        } by {
                        lemma_seq_count_update(s0, i as int, w);
                    }
                    lemma_seq_count_update(s0, i as int, word@);
                    assert forall|m: int|
                        0 <= m < self@.len() implies self@[m].0 == word@ || old(self).has_word(
                        self@[m].0,
                    ) by {
                        assert(self@[m].0 == s0[m].0);
                        assert(0 <= m < s0.len() && s0[m].0 == self@[m].0);
                    }
                }
                return ;
            }
            i = i + 1;
        }
        let ghost prev = self@;
        self.entries.push((word, 1));
        proof {
            let s1 = self@;
            assert(s1.len() == prev.len() + 1);
            assert forall|m: int| 0 <= m < prev.len() implies s1[m] == prev[m] by {
                assert(s1[m] == entry_view(self.entries@[m]));
                assert(prev[m] == entry_view(old(self).entries@[m]));
            }
            assert(s1.last() == entry_view((word, 1usize)));
            assert(s1.drop_last() =~= prev);
            assert forall|w: Seq<char>|
                seq_count(s1, w) == seq_count(prev, w) + if w == word@ {
                    1nat
                } else {
                    0nat
                } by {
                assert(seq_count(s1, w) == seq_count(s1.drop_last(), w) + if s1.last().0 == w {
                    s1.last().1
                } else {
                    0nat
                });
            }
            assert forall|m: int|
                0 <= m < s1.len() implies s1[m].0 == word@ || old(self).has_word(s1[m].0) by {
                if m < prev.len() {
                    assert(0 <= m < prev.len() && prev[m].0 == s1[m].0);
                }
            }
        }
    }

    /// The recorded count of `word`; zero where `word` was never recorded.
    pub fn count_of(&self, word: &String) -> (c: usize)
        requires
            self.wf(),
        ensures
            c as nat == self.spec_count(word@),
    {
        let n = self.entries.len();
        let mut i: usize = 0;
        while i < n
            invariant
                n == self.entries@.len(),
                i <= n,
                forall|j: int| 0 <= j < i ==> self.entries@[j].0@ != word@,
                self.wf(),
            decreases n - i,
        {
            if self.entries[i].0.eq(word) {
                proof {
                    lemma_seq_count_at(self@, i as int, word@);
                }
                return self.entries[i].1;
            }
            i = i + 1;
        }
        proof {
            lemma_seq_count_zero(self@, word@);
        }
        0
    }

    /// The total of all recorded counts.
    pub fn total(&self) -> (t: usize)
        requires
            self.mass() <= usize::MAX,
        ensures
            t as nat == self.mass(),
    {
        let n = self.entries.len();
        let mut t: usize = 0;
        let mut i: usize = 0;
        while i < n
            invariant
                n == self.entries@.len(),
                i <= n,
                t as nat == seq_mass(self@.take(i as int)),
                self.mass() <= usize::MAX,
            decreases n - i,
        {
            proof {
                assert(self@.take(i + 1).drop_last() =~= self@.take(i as int));
                assert(self@.take(i + 1).last() == self@[i as int]);
                lemma_mass_take_le(self@, i + 1);
            }
            t = t + self.entries[i].1;
            i = i + 1;
        }
        proof {
            assert(self@.take(n as int) =~= self@);
        }
        t
    }
}

/// The contract of counting one text: the entries record exactly the
/// occurrences of the qualifying words of `text` under the stop set `stop`.
pub open spec fn counts_text(wc: Seq<(Seq<char>, nat)>, text: Seq<char>, stop: Set<Seq<char>>) -> bool {
    forall|w: Seq<char>| seq_count(wc, w) == occ(qualifying(tokens_of(text), stop), w)
}

/// Counts the qualifying words of `text`: each whitespace-separated token is
/// lowercased and, unless its lowercase form is a stop word, counted.
pub fn count_words(text: &str, stop: &StopWords) -> (wc: WordCount)
    ensures
        wc.wf(),
        counts_text(wc@, text@, stop@),
        wc.mass() == qualifying(tokens_of(text@), stop@).len(),
        forall|i: int| 0 <= i < wc@.len() ==> !stop@.contains(wc@[i].0),
{
    let toks = tokenize(text);
    let ghost tv = toks.deep_view();
    let mut wc = WordCount::new();
    let nt = toks.len();
    let mut j: usize = 0;
    while j < nt
        invariant
            nt == toks@.len(),
            tv == toks.deep_view(),
            tv == tokens_of(text@),
            j <= nt,
            wc.wf(),
            forall|w: Seq<char>|
                wc.spec_count(w) == occ(qualifying(tv.take(j as int), stop@), w),
            wc.mass() == qualifying(tv.take(j as int), stop@).len(),
            forall|i: int| 0 <= i < wc@.len() ==> !stop@.contains(wc@[i].0),
        decreases nt - j,
    {
        proof {
            assert(tv.take(j + 1).drop_last() =~= tv.take(j as int));
            assert(tv.take(j + 1).last() == tv[j as int]);
            assert(tv[j as int] == toks@[j as int]@);
        }
        let low = lowercase(toks[j].as_str());
        let ghost q = qualifying(tv.take(j as int), stop@);
        if !stop.contains(&low) {
            proof {
                lemma_qualifying_len(tv.take(j as int), stop@);
                assert(q.push(low@).drop_last() =~= q);
                assert forall|w: Seq<char>|
                    occ(qualifying(tv.take(j + 1), stop@), w) == occ(q, w) + if w == low@ {
                        1nat
                    } else {
                        0nat
                    } by {
                    assert(qualifying(tv.take(j + 1), stop@) == q.push(low@));
                }
            }
            let ghost prev = wc;
            wc.increment(low);
            proof {
                assert forall|i: int|
                    0 <= i < wc@.len() implies !stop@.contains(wc@[i].0) by {
                    if wc@[i].0 != low@ {
                        assert(prev.has_word(wc@[i].0));
                    }
                }
            }
        }
        j = j + 1;
    }
    proof {
        assert(tv.take(nt as int) =~= tv);
        assert forall|w: Seq<char>|
            seq_count(wc@, w) == occ(qualifying(tokens_of(text@), stop@), w) by {
            assert(wc.spec_count(w) == occ(qualifying(tv.take(nt as int), stop@), w));
        }
    }
    wc
}

} // verus!
