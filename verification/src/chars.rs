//! Character classes and small utilities on character sequences.
//!
//! The tokenizer treats ASCII punctuation and ASCII whitespace as
//! delimiters; classification additionally needs digits and a
//! whitespace trim. Everything here is stated over `Seq<char>`.

use vstd::prelude::*;
use vstd::string::StrSliceExecFns;

verus! {

/// Copy the characters of a string slice into a vector, in order.
pub fn chars_of(s: &str) -> (r: Vec<char>)
    ensures
        r@ == s@,
{
    let n = s.unicode_len();
    let mut r: Vec<char> = Vec::new();
    let mut i: usize = 0;
    while i < n
        invariant
            0 <= i <= n,
            n == s@.len(),
            r@ == s@.subrange(0, i as int),
        decreases n - i,
    {
        let c = s.get_char(i);
        r.push(c);
        assert(r@ =~= s@.subrange(0, i + 1 as int));
        i += 1;
    }
    assert(r@ =~= s@);
    r
}

/// The five ASCII whitespace characters.
pub open spec fn is_ascii_whitespace_char(c: char) -> bool {
    c == ' ' || c == '\t' || c == '\n' || c == '\x0c' || c == '\r'
}

/// ASCII punctuation: the four printable non-alphanumeric ranges.
pub open spec fn is_ascii_punctuation_char(c: char) -> bool {
    (0x21 <= c as u32 && c as u32 <= 0x2f) || (0x3a <= c as u32 && c as u32 <= 0x40)
        || (0x5b <= c as u32 && c as u32 <= 0x60) || (0x7b <= c as u32 && c as u32 <= 0x7e)
}

pub open spec fn is_ascii_digit_char(c: char) -> bool {
    0x30 <= c as u32 && c as u32 <= 0x39
}

/// A delimiter ends the pending span during scanning.
pub open spec fn is_delimiter_char(c: char) -> bool {
    is_ascii_punctuation_char(c) || is_ascii_whitespace_char(c)
}

pub fn ascii_whitespace(c: char) -> (r: bool)
    ensures
        r == is_ascii_whitespace_char(c),
{
    c == ' ' || c == '\t' || c == '\n' || c == '\x0c' || c == '\r'
}

pub fn ascii_punctuation(c: char) -> (r: bool)
    ensures
        r == is_ascii_punctuation_char(c),
{
    let u = c as u32;
    (0x21 <= u && u <= 0x2f) || (0x3a <= u && u <= 0x40) || (0x5b <= u && u <= 0x60) || (0x7b
        <= u && u <= 0x7e)
}

pub fn ascii_digit(c: char) -> (r: bool)
    ensures
        r == is_ascii_digit_char(c),
{
    let u = c as u32;
    0x30 <= u && u <= 0x39
}

pub fn delimiter(c: char) -> (r: bool)
    ensures
        r == is_delimiter_char(c),
{
    ascii_punctuation(c) || ascii_whitespace(c)
}

/// Every character of `s` is ASCII whitespace (true of the empty sequence).
pub open spec fn all_whitespace(s: Seq<char>) -> bool {
    forall|i: int| 0 <= i < s.len() ==> is_ascii_whitespace_char(s[i])
}

/// A non-empty run of ASCII digits: the numeric-literal shape.
pub open spec fn is_numeric(s: Seq<char>) -> bool {
    s.len() > 0 && forall|i: int| 0 <= i < s.len() ==> is_ascii_digit_char(s[i])
}

/// `s` with leading and trailing ASCII whitespace removed.
pub open spec fn trim(s: Seq<char>) -> Seq<char>
    decreases s.len(),
{
    if s.len() == 0 {
        s
    } else if is_ascii_whitespace_char(s[0]) {
        trim(s.drop_first())
    } else if is_ascii_whitespace_char(s[s.len() - 1]) {
        trim(s.drop_last())
    } else {
        s
    }
}

/// `trim` is the subrange that remains once the whitespace margins are cut.
pub proof fn lemma_trim_is_subrange(s: Seq<char>, lo: int, hi: int)
    requires
        0 <= lo <= hi <= s.len(),
        forall|i: int| 0 <= i < lo ==> is_ascii_whitespace_char(s[i]),
        forall|i: int| hi <= i < s.len() ==> is_ascii_whitespace_char(s[i]),
        lo < hi ==> !is_ascii_whitespace_char(s[lo]) && !is_ascii_whitespace_char(s[hi - 1]),
        lo == hi ==> lo == 0 && hi == s.len() || all_whitespace(s),
    ensures
        trim(s) == s.subrange(lo, hi),
    decreases s.len(),
{
    if s.len() == 0 {
        assert(trim(s) =~= s.subrange(lo, hi));
    } else if is_ascii_whitespace_char(s[0]) {
        let t = s.drop_first();
        if lo == hi {
            lemma_trim_all_whitespace(s);
            assert(trim(s) =~= s.subrange(lo, hi));
        } else {
            assert(lo >= 1);
            lemma_trim_is_subrange(t, lo - 1, hi - 1);
            assert(t.subrange(lo - 1, hi - 1) =~= s.subrange(lo, hi));
        }
    } else if is_ascii_whitespace_char(s[s.len() - 1]) {
        let t = s.drop_last();
        assert(lo < hi && hi <= s.len() - 1) by {
            if lo == hi {
                assert(is_ascii_whitespace_char(s[0]));
            }
            if hi == s.len() {
                assert(!is_ascii_whitespace_char(s[hi - 1]));
            }
        }
        lemma_trim_is_subrange(t, lo, hi);
        assert(t.subrange(lo, hi) =~= s.subrange(lo, hi));
    } else {
        assert(lo == 0 && hi == s.len()) by {
            if lo == hi {
                assert(!all_whitespace(s)) by {
                    assert(!is_ascii_whitespace_char(s[0]));
                }
            } else {
                if lo > 0 {
                    assert(is_ascii_whitespace_char(s[0]));
                }
                if hi < s.len() {
                    assert(is_ascii_whitespace_char(s[s.len() - 1]));
                }
            }
        }
        assert(trim(s) =~= s.subrange(lo, hi));
    }
}

/// An all-whitespace sequence trims to nothing.
pub proof fn lemma_trim_all_whitespace(s: Seq<char>)
    requires
        all_whitespace(s),
    ensures
        trim(s).len() == 0,
    decreases s.len(),
{
    if s.len() > 0 {
        assert(is_ascii_whitespace_char(s[0]));
        lemma_trim_all_whitespace(s.drop_first());
    }
}

/// Character-sequence equality, decided by scanning.
pub fn chars_eq(a: &Vec<char>, b: &Vec<char>) -> (r: bool)
    ensures
        r <==> a@ == b@,
{
    if a.len() != b.len() {
        assert(a@ != b@) by {
            assert(a@.len() != b@.len());
        }
        return false;
    }
    let n = a.len();
    let mut i: usize = 0;
    while i < n
        invariant
            n == a@.len() == b@.len(),
            0 <= i <= n,
            forall|j: int| 0 <= j < i ==> a@[j] == b@[j],
        decreases n - i,
    {
        if a[i] != b[i] {
            return false;
        }
        i += 1;
    }
    assert(a@ =~= b@);
    true
}

/// True iff the trimmed sequence is a non-empty run of digits.
pub fn numeric_after_trim(v: &Vec<char>) -> (r: bool)
    ensures
        r == is_numeric(trim(v@)),
{
    let n = v.len();
    let mut lo: usize = 0;
    while lo < n && ascii_whitespace(v[lo])
        invariant
            n == v@.len(),
            0 <= lo <= n,
            forall|j: int| 0 <= j < lo ==> is_ascii_whitespace_char(v@[j]),
        decreases n - lo,
    {
        lo += 1;
    }
    if lo == n {
        proof {
            lemma_trim_all_whitespace(v@);
        }
        return false;
    }
    let mut hi: usize = n;
    while hi > lo && ascii_whitespace(v[hi - 1])
        invariant
            n == v@.len(),
            lo <= hi <= n,
            lo < n && !is_ascii_whitespace_char(v@[lo as int]),
            forall|j: int| hi <= j < n ==> is_ascii_whitespace_char(v@[j]),
        decreases hi,
    {
        hi -= 1;
    }
    assert(hi > lo && !is_ascii_whitespace_char(v@[hi - 1]));
    proof {
        lemma_trim_is_subrange(v@, lo as int, hi as int);
    }
    let ghost t = trim(v@);
    let mut i: usize = lo;
    while i < hi
        invariant
            n == v@.len(),
            0 <= lo <= i <= hi <= n,
            t == trim(v@),
            t == v@.subrange(lo as int, hi as int),
            forall|j: int| lo <= j < i ==> is_ascii_digit_char(v@[j]),
        decreases hi - i,
    {
        if !ascii_digit(v[i]) {
            assert(!is_ascii_digit_char(t[i - lo]));
            return false;
        }
        i += 1;
    }
    assert forall|j: int| 0 <= j < t.len() implies is_ascii_digit_char(t[j]) by {
        assert(t[j] == v@[lo + j]);
    }
    true
}

/// True iff every character is ASCII whitespace.
pub fn whitespace_only(v: &Vec<char>) -> (r: bool)
    ensures
        r == all_whitespace(v@),
{
    let n = v.len();
    let mut i: usize = 0;
    while i < n
        invariant
            n == v@.len(),
            0 <= i <= n,
            forall|j: int| 0 <= j < i ==> is_ascii_whitespace_char(v@[j]),
        decreases n - i,
    {
        if !ascii_whitespace(v[i]) {
            return false;
        }
        i += 1;
    }
    true
}

} // verus!
