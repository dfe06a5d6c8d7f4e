//! Splitting text into whitespace-separated tokens, and lowercasing them.

use vstd::prelude::*;
use vstd::string::StrSliceExecFns;

verus! {

/// The characters treated as word separators: space, tab, newline and
/// carriage return.
pub open spec fn spec_is_space(c: char) -> bool {
    c == ' ' || c == '\t' || c == '\n' || c == '\r'
}

/// Whether `c` separates words.
#[verifier::when_used_as_spec(spec_is_space)]
pub fn is_space(c: char) -> (r: bool)
    ensures
        r == spec_is_space(c),
{
    c == ' ' || c == '\t' || c == '\n' || c == '\r'
}

/// One left-to-right pass over `s`: the pair of the words already finished by
/// a separator, and the partial word the pass stands in (empty after a
/// separator).
pub open spec fn scan(s: Seq<char>) -> (Seq<Seq<char>>, Seq<char>)
    decreases s.len(),
{
    if s.len() == 0 {
        (Seq::empty(), Seq::empty())
    } else {
        let prior = scan(s.drop_last());
        let done = prior.0;
        let cur = prior.1;
        if spec_is_space(s.last()) {
            if cur.len() == 0 {
                (done, Seq::empty())
            } else {
                (done.push(cur), Seq::empty())
            }
        } else {
            (done, cur.push(s.last()))
        }
    }
}

/// The whitespace-separated tokens of `s`, in order: the maximal runs of
/// non-separator characters.
pub open spec fn tokens_of(s: Seq<char>) -> Seq<Seq<char>> {
    let end = scan(s);
    if end.1.len() == 0 {
        end.0
    } else {
        end.0.push(end.1)
    }
}

/// Splits `text` into its whitespace-separated tokens.
pub fn tokenize(text: &str) -> (toks: Vec<String>)
    ensures
        toks.deep_view() == tokens_of(text@),
{
    let n = text.unicode_len();
    let mut toks: Vec<String> = Vec::new();
    let mut start: usize = 0;
    let mut i: usize = 0;
    while i < n
        invariant
            text@.len() == n as nat,
            start <= i <= n,
            scan(text@.subrange(0, i as int)).0 == toks.deep_view(),
            scan(text@.subrange(0, i as int)).1 == text@.subrange(start as int, i as int),
        decreases n - i,
    {
        proof {
            assert(text@.subrange(0, i + 1).drop_last() =~= text@.subrange(0, i as int));
        }
        let c = text.get_char(i);
        if is_space(c) {
            if start < i {
                let ghost prev = toks.deep_view();
                let tok = text.substring_char(start, i).to_owned();
                toks.push(tok);
                proof {
                    assert(toks.deep_view() =~= prev.push(tok@));
                }
            }
            start = i + 1;
            proof {
                assert(text@.subrange(start as int, i + 1) =~= Seq::<char>::empty());
            }
        } else {
            proof {
                assert(text@.subrange(start as int, i + 1) =~= text@.subrange(
                    start as int,
                    i as int,
                ).push(text@[i as int]));
            }
        }
        i = i + 1;
    }
    proof {
        assert(text@.subrange(0, n as int) =~= text@);
    }
    if start < n {
        let ghost prev = toks.deep_view();
        let tok = text.substring_char(start, n).to_owned();
        toks.push(tok);
        proof {
            assert(toks.deep_view() =~= prev.push(tok@));
        }
    }
    toks
}

/// The lowercase form of `s`, as `str::to_lowercase` computes it.
pub uninterp spec fn lower_of(s: Seq<char>) -> Seq<char>;

/// Relies on `str::to_lowercase`: the result is a function of the input
/// characters alone, and an empty string stays empty.
#[verifier::external_body]
pub(crate) fn lowercase(s: &str) -> (r: String)
    ensures
        r@ == lower_of(s@),
        s@.len() == 0 ==> r@.len() == 0,
{
    s.to_lowercase()
}

} // verus!
