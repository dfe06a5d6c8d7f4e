//! The stop-word set: words excluded from counting.

use vstd::prelude::*;
use vstd::string::StringExecFns;

verus! {

/// The fixed default list of stop words, as a sequence.
pub open spec fn default_stop_seq() -> Seq<Seq<char>> {
    seq![
        "the"@,
        "and"@,
        "a"@,
        "to"@,
        "of"@,
        "in"@,
        "it"@,
        "is"@,
        "that"@,
        "we"@,
        "with"@,
        "on"@,
        "had"@,
        "as"@,
        "but"@,
        "for"@,
        "not"@,
        "from"@,
        "at"@,
        "was"@,
    ]
}

/// The fixed default set of stop words.
pub open spec fn default_stop_set() -> Set<Seq<char>> {
    default_stop_seq().to_set()
}

/// An immutable set of words excluded from counting, shared read-only by all
/// counting runs.
pub struct StopWords {
    words: Vec<String>,
}

impl View for StopWords {
    type V = Set<Seq<char>>;

    closed spec fn view(&self) -> Set<Seq<char>> {
        self.words.deep_view().to_set()
    }
}

impl StopWords {
    /// The empty set: no word is filtered.
    pub fn none() -> (r: StopWords)
        ensures
            r@ == Set::<Seq<char>>::empty(),
    {
        let words: Vec<String> = Vec::new();
        proof {
            assert(words.deep_view().to_set() =~= Set::<Seq<char>>::empty());
        }
        StopWords { words }
    }

    /// The default stop words.
    pub fn standard() -> (r: StopWords)
        ensures
            r@ == default_stop_set(),
    {
        let mut words: Vec<String> = Vec::new();
        words.push(String::from_str("the"));
        words.push(String::from_str("and"));
        words.push(String::from_str("a"));
        words.push(String::from_str("to"));
        words.push(String::from_str("of"));
        words.push(String::from_str("in"));
        words.push(String::from_str("it"));
        words.push(String::from_str("is"));
        words.push(String::from_str("that"));
        words.push(String::from_str("we"));
        words.push(String::from_str("with"));
        words.push(String::from_str("on"));
        words.push(String::from_str("had"));
        words.push(String::from_str("as"));
        words.push(String::from_str("but"));
        words.push(String::from_str("for"));
        words.push(String::from_str("not"));
        words.push(String::from_str("from"));
        words.push(String::from_str("at"));
        words.push(String::from_str("was"));
        proof {
            assert(words.deep_view() =~= default_stop_seq());
            assert(words.deep_view().to_set() =~= default_stop_set());
        }
        StopWords { words }
    }

    /// Whether `w` is a stop word.
    pub fn contains(&self, w: &String) -> (r: bool)
        ensures
            r == self@.contains(w@),
    {
        let n = self.words.len();
        let mut i: usize = 0;
        while i < n
            invariant
                n == self.words@.len(),
                i <= n,
                forall|j: int| 0 <= j < i ==> self.words@[j]@ != w@,
            decreases n - i,

        {
            if w.eq(&self.words[i]) {
                proof {
                    assert(self.words.deep_view()[i as int] == w@);
                    assert(self.words.deep_view().contains(w@));
                }
                return true;
            }
            i = i + 1;
        }
        proof {
            assert(forall|j: int|
                0 <= j < self.words.deep_view().len() ==> self.words.deep_view()[j] != w@);
            assert(!self.words.deep_view().contains(w@));
        }
        false
    }
}

} // verus!
