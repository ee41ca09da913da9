//! Character-level string helpers shared by the parsing modules.
//!
//! Every helper is executable code verified against a direct spec over the
//! `Seq<char>` view of the string.

use vstd::prelude::*;
use vstd::string::*;

verus! {

/// ASCII whitespace, the only kind the listing formats use.
pub open spec fn is_space_char(c: char) -> bool {
    c == ' ' || c == '\t' || c == '\r' || c == '\n'
}

/// `p` is a prefix of `s`.
pub open spec fn has_prefix(s: Seq<char>, p: Seq<char>) -> bool {
    p.len() <= s.len() && s.subrange(0, p.len() as int) == p
}

/// The last character of `s` is `c`.
pub open spec fn ends_with_char(s: Seq<char>, c: char) -> bool {
    s.len() > 0 && s[s.len() - 1] == c
}

/// The first character of `s` is `c`.
pub open spec fn starts_with_char(s: Seq<char>, c: char) -> bool {
    s.len() > 0 && s[0] == c
}

pub fn is_space(c: char) -> (r: bool)
    ensures
        r == is_space_char(c),
{
    c == ' ' || c == '\t' || c == '\r' || c == '\n'
}

/// Character-wise string equality.
pub fn str_eq(a: &str, b: &str) -> (r: bool)
    ensures
        r == (a@ == b@),
{
    let n = a.unicode_len();
    if n != b.unicode_len() {
        assert(a@.len() != b@.len());
        return false;
    }
    let mut i: usize = 0;
    while i < n
        invariant
            n == a@.len(),
            n == b@.len(),
            i <= n,
            forall|k: int| 0 <= k < i ==> a@[k] == b@[k],
        decreases n - i,
    {
        if a.get_char(i) != b.get_char(i) {
            return false;
        }
        i += 1;
    }
    assert(a@ =~= b@);
    true
}

/// Whether `p` is a prefix of `s`.
pub fn starts_with_str(s: &str, p: &str) -> (r: bool)
    ensures
        r == has_prefix(s@, p@),
{
    let np = p.unicode_len();
    if np > s.unicode_len() {
        return false;
    }
    let mut i: usize = 0;
    while i < np
        invariant
            np == p@.len(),
            np <= s@.len(),
            i <= np,
            forall|k: int| 0 <= k < i ==> s@[k] == p@[k],
        decreases np - i,
    {
        if s.get_char(i) != p.get_char(i) {
            assert(s@.subrange(0, np as int)[i as int] != p@[i as int]);
            return false;
        }
        i += 1;
    }
    assert(s@.subrange(0, np as int) =~= p@);
    true
}

/// Whether the last character of `s` is `c`.
pub fn ends_with_chr(s: &str, c: char) -> (r: bool)
    ensures
        r == ends_with_char(s@, c),
{
    let n = s.unicode_len();
    n > 0 && s.get_char(n - 1) == c
}

/// Whether the first character of `s` is `c`.
pub fn starts_with_chr(s: &str, c: char) -> (r: bool)
    ensures
        r == starts_with_char(s@, c),
{
    s.unicode_len() > 0 && s.get_char(0) == c
}

/// `s` with its trailing whitespace removed.
pub open spec fn trim_end_spec(s: Seq<char>) -> Seq<char>
    decreases s.len(),
{
    if s.len() > 0 && is_space_char(s[s.len() - 1]) {
        trim_end_spec(s.drop_last())
    } else {
        s
    }
}

/// `s` with its leading whitespace removed.
pub open spec fn trim_start_spec(s: Seq<char>) -> Seq<char>
    decreases s.len(),
{
    if s.len() > 0 && is_space_char(s[0]) {
        trim_start_spec(s.subrange(1, s.len() as int))
    } else {
        s
    }
}

/// `s` with whitespace removed at both ends.
pub open spec fn trim_spec(s: Seq<char>) -> Seq<char> {
    trim_start_spec(trim_end_spec(s))
}

pub proof fn lemma_trim_end_at(s: Seq<char>, te: int)
    requires
        0 <= te <= s.len(),
        forall|j: int| te <= j < s.len() ==> is_space_char(#[trigger] s[j]),
        te > 0 ==> !is_space_char(s[te - 1]),
    ensures
        trim_end_spec(s) == s.subrange(0, te),
    decreases s.len(),
{
    if te == s.len() {
        if s.len() > 0 {
            assert(!is_space_char(s[s.len() - 1]));
        }
        assert(s.subrange(0, te) =~= s);
    } else {
        assert(is_space_char(s[s.len() - 1]));
        assert(s.drop_last() =~= s.subrange(0, s.len() - 1));
        lemma_trim_end_at(s.subrange(0, s.len() - 1), te);
        assert(s.subrange(0, s.len() - 1).subrange(0, te) =~= s.subrange(0, te));
    }
}

pub proof fn lemma_trim_start_at(s: Seq<char>, ts: int)
    requires
        0 <= ts <= s.len(),
        forall|j: int| 0 <= j < ts ==> is_space_char(#[trigger] s[j]),
        ts < s.len() ==> !is_space_char(s[ts]),
    ensures
        trim_start_spec(s) == s.subrange(ts, s.len() as int),
    decreases ts,
{
    if ts == 0 {
        assert(s.subrange(0, s.len() as int) =~= s);
    } else {
        assert(is_space_char(s[0]));
        let tail = s.subrange(1, s.len() as int);
        lemma_trim_start_at(tail, ts - 1);
        assert(tail.subrange(ts - 1, tail.len() as int) =~= s.subrange(ts, s.len() as int));
    }
}

/// `s` with its trailing whitespace removed, as a borrowed slice.
pub fn trim_end_str<'a>(s: &'a str) -> (r: &'a str)
    ensures
        r@ == trim_end_spec(s@),
{
    let n = s.unicode_len();
    let mut te: usize = n;
    while te > 0 && is_space(s.get_char(te - 1))
        invariant
            n == s@.len(),
            te <= n,
            forall|j: int| te <= j < n ==> is_space_char(#[trigger] s@[j]),
        decreases te,
    {
        te -= 1;
    }
    proof {
        lemma_trim_end_at(s@, te as int);
    }
    s.substring_char(0, te)
}

/// `s` with whitespace removed at both ends, as a borrowed slice.
pub fn trim_str<'a>(s: &'a str) -> (r: &'a str)
    ensures
        r@ == trim_spec(s@),
{
    let e = trim_end_str(s);
    let n = e.unicode_len();
    let mut ts: usize = 0;
    while ts < n && is_space(e.get_char(ts))
        invariant
            n == e@.len(),
            ts <= n,
            forall|j: int| 0 <= j < ts ==> is_space_char(#[trigger] e@[j]),
        decreases n - ts,
    {
        ts += 1;
    }
    proof {
        lemma_trim_start_at(e@, ts as int);
    }
    e.substring_char(ts, n)
}

} // verus!
