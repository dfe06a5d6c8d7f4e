//! Rendering results as text lines: a header per file, and one line per
//! ranked word, the quoted word left-padded to a fixed width, then its count.

use vstd::prelude::*;
use vstd::string::StringExecFns;
use vstd::string::StrSliceExecFns;

verus! {

/// The column the counts start in: the quoted word is padded to this width.
pub const WORD_COLUMN_WIDTH: usize = 10;

/// The decimal digit character for `d`.
pub open spec fn digit_char(d: int) -> char {
    if d == 0 {
        '0'
    } else if d == 1 {
        '1'
    } else if d == 2 {
        '2'
    } else if d == 3 {
        '3'
    } else if d == 4 {
        '4'
    } else if d == 5 {
        '5'
    } else if d == 6 {
        '6'
    } else if d == 7 {
        '7'
    } else if d == 8 {
        '8'
    } else {
        '9'
    }
}

/// The decimal digits of `n`, most significant first.
pub open spec fn dec_digits(n: nat) -> Seq<char>
    decreases n,
{
    if n < 10 {
        seq![digit_char(n as int)]
    } else {
        dec_digits(n / 10).push(digit_char((n % 10) as int))
    }
}

/// `n` spaces.
pub open spec fn spaces(n: nat) -> Seq<char>
    decreases n,
{
    if n == 0 {
        Seq::empty()
    } else {
        spaces((n - 1) as nat).push(' ')
    }
}

/// The word wrapped in single quotes.
pub open spec fn quoted(word: Seq<char>) -> Seq<char> {
    seq!['\''] + word + seq!['\'']
}

/// `s` padded with spaces on the right to the word column width.
pub open spec fn padded(s: Seq<char>) -> Seq<char> {
    if s.len() >= WORD_COLUMN_WIDTH {
        s
    } else {
        s + spaces((WORD_COLUMN_WIDTH - s.len()) as nat)
    }
}

/// One ranked line: the quoted word, padding, one space, the count.
pub open spec fn rendered_line(word: Seq<char>, count: nat) -> Seq<char> {
    padded(quoted(word)) + seq![' '] + dec_digits(count)
}

/// The header line for a file: an arrow and the file's name.
pub open spec fn rendered_header(name: Seq<char>) -> Seq<char> {
    "==> "@ + name
}

fn digit_str(d: usize) -> (r: &'static str)
    requires
        d < 10,
    ensures
        r@ == seq![digit_char(d as int)],
{
    let r: &'static str = if d == 0 {
        "0"
    } else if d == 1 {
        "1"
    } else if d == 2 {
        "2"
    } else if d == 3 {
        "3"
    } else if d == 4 {
        "4"
    } else if d == 5 {
        "5"
    } else if d == 6 {
        "6"
    } else if d == 7 {
        "7"
    } else if d == 8 {
        "8"
    } else {
        "9"
    };
    proof {
        reveal_strlit("0");
        reveal_strlit("1");
        reveal_strlit("2");
        reveal_strlit("3");
        reveal_strlit("4");
        reveal_strlit("5");
        reveal_strlit("6");
        reveal_strlit("7");
        reveal_strlit("8");
        reveal_strlit("9");
        assert(r@ =~= seq![digit_char(d as int)]);
    }
    r
}

/// The decimal rendering of `n`.
pub fn render_decimal(n: usize) -> (r: String)
    ensures
        r@ == dec_digits(n as nat),
    decreases n,
{
    if n < 10 {
        let s = String::from_str(digit_str(n));
        s
    } else {
        let mut s = render_decimal(n / 10);
        s.append(digit_str(n % 10));
        proof {
            assert(dec_digits(n as nat) =~= dec_digits((n / 10) as nat) + seq![
                digit_char((n % 10) as int),
            ]);
        }
        s
    }
}

/// One ranked line for `word` with its `count`.
pub fn render_line(word: &str, count: usize) -> (r: String)
    ensures
        r@ == rendered_line(word@, count as nat),
{
    proof {
        reveal_strlit("'");
        reveal_strlit(" ");
    }
    let mut s = String::from_str("'");
    s.append(word);
    s.append("'");
    proof {
        assert(s@ =~= quoted(word@));
    }
    let q = s.unicode_len();
    let pad: usize = if q >= WORD_COLUMN_WIDTH {
        0
    } else {
        WORD_COLUMN_WIDTH - q
    };
    let mut p: usize = 0;
    while p < pad
        invariant
            p <= pad,
            s@ == quoted(word@) + spaces(p as nat),
        decreases pad - p,
    {
        s.append(" ");
        proof {
            reveal_strlit(" ");
            assert(quoted(word@) + spaces((p + 1) as nat) =~= (quoted(word@) + spaces(p as nat))
                + " "@);
        }
        p = p + 1;
    }
    proof {
        assert(s@ =~= padded(quoted(word@)));
    }
    s.append(" ");
    let d = render_decimal(count);
    s.append(d.as_str());
    proof {
        assert(s@ =~= rendered_line(word@, count as nat));
    }
    s
}

/// The header line naming `name`.
pub fn render_header(name: &str) -> (r: String)
    ensures
        r@ == rendered_header(name@),
{
    let mut s = String::from_str("==> ");
    s.append(name);
    s
}

} // verus!
