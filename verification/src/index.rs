//! Parser for the site's master listing: a text file that, after a
//! `TITLE and AUTHOR` heading, lists one entry per paragraph — a title
//! (possibly continued over further lines) ending in the entry's number.

use vstd::prelude::*;
use vstd::string::*;
use std::collections::HashMap;
use crate::strutil::{
    has_prefix, starts_with_str, str_eq, trim_end_spec, trim_end_str, trim_spec, trim_str,
};

verus! {

/// Index of the first `\n` in `s`, or `-1`.
pub open spec fn first_nl(s: Seq<char>) -> int
    decreases s.len(),
{
    if s.len() == 0 {
        -1
    } else if s[0] == '\n' {
        0
    } else {
        let r = first_nl(s.subrange(1, s.len() as int));
        if r == -1 {
            -1
        } else {
            r + 1
        }
    }
}

pub proof fn lemma_first_nl_range(s: Seq<char>)
    ensures
        -1 <= first_nl(s) < s.len(),
    decreases s.len(),
{
    if s.len() > 0 && s[0] != '\n' {
        lemma_first_nl_range(s.subrange(1, s.len() as int));
    }
}

/// A line with one trailing carriage return removed.
pub open spec fn strip_cr(l: Seq<char>) -> Seq<char> {
    if l.len() > 0 && l[l.len() - 1] == '\r' {
        l.drop_last()
    } else {
        l
    }
}

/// The lines of `s`: split at `\n`, one trailing `\r` stripped from each
/// line, with no final empty line for text that ends in a newline.
pub open spec fn spec_lines(s: Seq<char>) -> Seq<Seq<char>>
    decreases s.len(),
    via spec_lines_decreases
{
    if s.len() == 0 {
        Seq::empty()
    } else if first_nl(s) == -1 {
        seq![strip_cr(s)]
    } else {
        let k = first_nl(s);
        seq![strip_cr(s.subrange(0, k))] + spec_lines(s.subrange(k + 1, s.len() as int))
    }
}

#[via_fn]
proof fn spec_lines_decreases(s: Seq<char>) {
    lemma_first_nl_range(s);
}

proof fn lemma_first_nl_at(s: Seq<char>, k: int)
    requires
        0 <= k < s.len(),
        s[k] == '\n',
        forall|j: int| 0 <= j < k ==> s[j] != '\n',
    ensures
        first_nl(s) == k,
    decreases k,
{
    if k > 0 {
        let tail = s.subrange(1, s.len() as int);
        lemma_first_nl_at(tail, k - 1);
    }
}

proof fn lemma_first_nl_none(s: Seq<char>)
    requires
        forall|j: int| 0 <= j < s.len() ==> s[j] != '\n',
    ensures
        first_nl(s) == -1,
    decreases s.len(),
{
    if s.len() > 0 {
        lemma_first_nl_none(s.subrange(1, s.len() as int));
    }
}

/// Split text into lines as `spec_lines` describes.
pub fn split_lines(text: &str) -> (r: Vec<String>)
    ensures
        r.deep_view() == spec_lines(text@),
{
    let s = text;
    let n = s.unicode_len();
    let mut out: Vec<String> = Vec::new();
    let mut start: usize = 0;
    let mut i: usize = 0;
    proof {
        assert(out.deep_view() =~= Seq::<Seq<char>>::empty());
        assert(s@.subrange(0, n as int) =~= s@);
    }
    while i < n
        invariant
            n == s@.len(),
            start <= i <= n,
            forall|j: int| start <= j < i ==> s@[j] != '\n',
            spec_lines(s@) == out.deep_view() + spec_lines(s@.subrange(start as int, n as int)),
        decreases n - i,
    {
        if s.get_char(i) == '\n' {
            let ghost rest = s@.subrange(start as int, n as int);
            proof {
                lemma_first_nl_at(rest, i - start);
            }
            let mut stop: usize = i;
            if stop > start && s.get_char(stop - 1) == '\r' {
                stop -= 1;
            }
            let line = String::from_str(s.substring_char(start, stop));
            proof {
                assert(rest.subrange(0, i - start) =~= s@.subrange(start as int, i as int));
                assert(strip_cr(rest.subrange(0, i - start)) =~= line@);
                assert(rest.subrange(i - start + 1, rest.len() as int) =~= s@.subrange(
                    i as int + 1,
                    n as int,
                ));
            }
            let ghost prev = out.deep_view();
            out.push(line);
            proof {
                assert(out.deep_view() =~= prev.push(strip_cr(rest.subrange(0, i - start))));
                assert(prev + spec_lines(rest) =~= out.deep_view() + spec_lines(
                    s@.subrange(i as int + 1, n as int),
                ));
            }
            start = i + 1;
        }
        i += 1;
    }
    if start < n {
        let ghost rest = s@.subrange(start as int, n as int);
        proof {
            lemma_first_nl_none(rest);
        }
        let mut stop: usize = n;
        if s.get_char(stop - 1) == '\r' {
            stop -= 1;
        }
        let line = String::from_str(s.substring_char(start, stop));
        proof {
            assert(strip_cr(rest) =~= line@);
        }
        let ghost prev = out.deep_view();
        out.push(line);
        proof {
            assert(out.deep_view() =~= prev.push(strip_cr(rest)));
            assert(prev + seq![strip_cr(rest)] =~= out.deep_view());
        }
    } else {
        proof {
            assert(s@.subrange(start as int, n as int) =~= Seq::<char>::empty());
            assert(out.deep_view() + Seq::<Seq<char>>::empty() =~= out.deep_view());
        }
    }
    out
}

/// An ASCII decimal digit.
pub open spec fn is_digit_char(c: char) -> bool {
    '0' <= c && c <= '9'
}

/// The scan that finds the trailing digit run, walking from position
/// `i - 1` down with `ns` the digit-run start found so far: a digit
/// moves the start; a non-digit below an already-found run stops it.
pub open spec fn drs(s: Seq<char>, i: int, ns: int) -> int
    decreases i,
{
    if i <= 0 {
        ns
    } else if is_digit_char(s[i - 1]) {
        drs(s, i - 1, i - 1)
    } else if ns < s.len() {
        ns
    } else {
        drs(s, i - 1, ns)
    }
}

/// Start of the trailing digit run of the line, or its length when the
/// line holds no digit.
pub open spec fn digit_run_start(s: Seq<char>) -> int {
    drs(s, s.len() as int, s.len() as int)
}

/// Numeric value of a digit string.
pub open spec fn digits_val(s: Seq<char>) -> int
    decreases s.len(),
{
    if s.len() == 0 {
        0
    } else {
        digits_val(s.drop_last()) * 10 + (s[s.len() - 1] as int - '0' as int)
    }
}

pub open spec fn all_digits(s: Seq<char>) -> bool {
    forall|j: int| 0 <= j < s.len() ==> is_digit_char(#[trigger] s[j])
}

/// What `u32` parsing with a zero fallback yields on the trimmed text:
/// the digits' value when the text is one plain run of digits that fits,
/// and zero otherwise.
pub open spec fn parse_u32_spec(s: Seq<char>) -> u32 {
    let t = trim_spec(s);
    if t.len() > 0 && all_digits(t) && digits_val(t) <= u32::MAX {
        digits_val(t) as u32
    } else {
        0
    }
}

/// One listing line split into its entry number and its title text: the
/// number is the trailing digit run (zero when absent or malformed), the
/// title is everything before it with trailing whitespace removed.
pub open spec fn spec_parse_line(line: Seq<char>) -> (u32, Seq<char>) {
    let ns = digit_run_start(line);
    (
        parse_u32_spec(line.subrange(ns, line.len() as int)),
        trim_end_spec(line.subrange(0, ns)),
    )
}

proof fn lemma_digits_val_bounds(s: Seq<char>)
    requires
        all_digits(s),
    ensures
        digits_val(s) >= 0,
    decreases s.len(),
{
    if s.len() > 0 {
        assert(all_digits(s.drop_last()));
        lemma_digits_val_bounds(s.drop_last());
    }
}

proof fn lemma_digits_val_prefix(s: Seq<char>, j: int)
    requires
        all_digits(s),
        0 <= j <= s.len(),
    ensures
        digits_val(s.subrange(0, j)) <= digits_val(s),
    decreases s.len() - j,
{
    if j == s.len() {
        assert(s.subrange(0, j) =~= s);
    } else {
        lemma_digits_val_prefix(s, j + 1);
        let p1 = s.subrange(0, j + 1);
        assert(p1.drop_last() =~= s.subrange(0, j));
        assert(all_digits(p1.drop_last()));
        lemma_digits_val_bounds(p1.drop_last());
        assert(digits_val(p1) == digits_val(s.subrange(0, j)) * 10 + (s[j] as int - '0' as int));
    }
}

/// Parse the trimmed text as a `u32`, yielding zero when it is not one
/// plain digit run or does not fit.
fn parse_u32_or_zero(s: &str) -> (r: u32)
    ensures
        r == parse_u32_spec(s@),
{
    let t = trim_str(s);
    let ghost tv = trim_spec(s@);
    let n = t.unicode_len();
    if n == 0 {
        return 0;
    }
    let mut acc: u64 = 0;
    let mut k: usize = 0;
    while k < n
        invariant
            tv == t@,
            tv == trim_spec(s@),
            n == t@.len(),
            k <= n,
            forall|j: int| 0 <= j < k ==> is_digit_char(#[trigger] t@[j]),
            acc == digits_val(t@.subrange(0, k as int)),
            acc <= u32::MAX,
        decreases n - k,
    {
        let c = t.get_char(k);
        if !(c >= '0' && c <= '9') {
            proof {
                assert(!is_digit_char(t@[k as int]));
                assert(!all_digits(t@));
                assert(parse_u32_spec(s@) == 0);
            }
            return 0;
        }
        let d: u32 = (c as u32) - 48;
        proof {
            assert(t@.subrange(0, k as int + 1).drop_last() =~= t@.subrange(0, k as int));
            assert(d == t@[k as int] as int - '0' as int);
        }
        let next: u64 = acc * 10 + (d as u64);
        if next > (u32::MAX as u64) {
            proof {
                // whether or not the rest is digits, the parse yields 0:
                // the value of a digit prefix already exceeds the range
                assert(digits_val(t@.subrange(0, k as int + 1)) == acc * 10 + (t@[k as int] as int
                    - '0' as int));
                assert(digits_val(t@.subrange(0, k as int + 1)) == next);
                if all_digits(t@) {
                    lemma_digits_val_prefix(t@, k as int + 1);
                    assert(digits_val(t@) > u32::MAX);
                }
                assert(parse_u32_spec(s@) == 0);
            }
            return 0;
        }
        acc = next;
        k += 1;
    }
    proof {
        assert(t@.subrange(0, n as int) =~= t@);
    }
    acc as u32
}

/// Split one listing line into its entry number and title.
pub fn parse_line(line: &str) -> (r: (u32, String))
    ensures
        r.0 == spec_parse_line(line@).0,
        r.1@ == spec_parse_line(line@).1,
{
    let n = line.unicode_len();
    let mut i: usize = n;
    let mut ns: usize = n;
    let mut stop = false;
    while i > 0 && !stop
        invariant
            n == line@.len(),
            i <= n,
            ns <= n,
            digit_run_start(line@) == (if stop {
                ns as int
            } else {
                drs(line@, i as int, ns as int)
            }),
        decreases i + (if stop {
            0int
        } else {
            1int
        }),
    {
        let c = line.get_char(i - 1);
        if c >= '0' && c <= '9' {
            ns = i - 1;
            i -= 1;
        } else if ns < n {
            stop = true;
        } else {
            i -= 1;
        }
    }
    let number = parse_u32_or_zero(line.substring_char(ns, n));
    let title = String::from_str(trim_end_str(line.substring_char(0, ns)));
    (number, title)
}

broadcast use vstd::std_specs::hash::group_hash_axioms;

/// The heading after which entries begin.
pub open spec fn title_marker() -> Seq<char> {
    "TITLE and AUTHOR"@
}

/// The footer line prefix at which parsing stops.
pub open spec fn end_marker() -> Seq<char> {
    "<==End of "@
}

/// `p` occurs in `s` at position `k`.
pub open spec fn contains_at(s: Seq<char>, p: Seq<char>, k: int) -> bool {
    0 <= k && k + p.len() <= s.len() && s.subrange(k, k + p.len() as int) == p
}

/// `p` occurs somewhere in `s`.
pub open spec fn contains_sub(s: Seq<char>, p: Seq<char>) -> bool {
    exists|k: int| contains_at(s, p, k)
}

/// Whether the heading occurs anywhere in the line.
fn contains_title_marker(line: &str) -> (r: bool)
    ensures
        r == contains_sub(line@, title_marker()),
{
    let m: &str = "TITLE and AUTHOR";
    proof {
        reveal_strlit("TITLE and AUTHOR");
    }
    let ml = m.unicode_len();
    let n = line.unicode_len();
    if ml > n {
        assert(!contains_sub(line@, title_marker()));
        return false;
    }
    let mut k: usize = 0;
    while k <= n - ml
        invariant
            ml == title_marker().len(),
            m@ == title_marker(),
            n == line@.len(),
            1 <= ml <= n,
            k <= n - ml + 1,
            forall|q: int| 0 <= q < k ==> !contains_at(line@, title_marker(), q),
        decreases n - k,
    {
        if str_eq(line.substring_char(k, k + ml), m) {
            assert(contains_at(line@, title_marker(), k as int));
            return true;
        }
        k += 1;
    }
    assert(!contains_sub(line@, title_marker()));
    false
}

/// The fold state: heading seen, inside a title, current entry number,
/// title text gathered so far, entries finished so far, footer seen.
pub open spec fn index_init() -> (bool, bool, u32, Seq<char>, Map<u32, Seq<char>>, bool) {
    (false, false, 0u32, Seq::<char>::empty(), Map::<u32, Seq<char>>::empty(), false)
}

/// One line of the listing applied to the fold state.  A line holding
/// the heading (re)starts entry parsing; a footer line freezes the
/// state; before the heading everything is skipped.  Inside the
/// entries, a line opens a title, a blank line closes it and records
/// the entry, and any other line continues the title.
pub open spec fn index_step(
    st: (bool, bool, u32, Seq<char>, Map<u32, Seq<char>>, bool),
    line: Seq<char>,
) -> (bool, bool, u32, Seq<char>, Map<u32, Seq<char>>, bool) {
    if st.5 {
        st
    } else if contains_sub(line, title_marker()) {
        (true, st.1, st.2, st.3, st.4, false)
    } else if has_prefix(line, end_marker()) {
        (st.0, st.1, st.2, st.3, st.4, true)
    } else if st.0 {
        if !st.1 {
            (true, true, spec_parse_line(line).0, spec_parse_line(line).1, st.4, false)
        } else if line.len() == 0 {
            (true, false, st.2, Seq::<char>::empty(), st.4.insert(st.2, st.3), false)
        } else {
            (true, true, st.2, st.3 + seq!['\n'] + trim_spec(line), st.4, false)
        }
    } else {
        st
    }
}

/// The fold state after the first `i` lines.
pub open spec fn index_fold(lines: Seq<Seq<char>>, i: int) -> (
    bool,
    bool,
    u32,
    Seq<char>,
    Map<u32, Seq<char>>,
    bool,
)
    decreases i,
{
    if i <= 0 {
        index_init()
    } else {
        index_step(index_fold(lines, i - 1), lines[i - 1])
    }
}

/// The listing parsed into a map from entry number to title, a pending
/// unfinished title recorded at the end.
pub open spec fn spec_index(text: Seq<char>) -> Map<u32, Seq<char>> {
    let lines = spec_lines(text);
    let st = index_fold(lines, lines.len() as int);
    if st.3.len() > 0 {
        st.4.insert(st.2, st.3)
    } else {
        st.4
    }
}

/// The mathematical content of an executable map: the same keys, each
/// title viewed as its character sequence.
pub open spec fn view_of_map(m: Map<u32, String>) -> Map<u32, Seq<char>> {
    Map::new(|k: u32| m.dom().contains(k), |k: u32| m[k]@)
}

proof fn lemma_fold_frozen(lines: Seq<Seq<char>>, i: int, j: int)
    requires
        0 <= i <= j <= lines.len(),
        index_fold(lines, i).5,
    ensures
        index_fold(lines, j) == index_fold(lines, i),
    decreases j - i,
{
    if j > i {
        lemma_fold_frozen(lines, i, j - 1);
    }
}

/// Parse the whole listing into a map from entry number to title.
pub fn index(text: &str) -> (m: HashMap<u32, String>)
    ensures
        view_of_map(m@) == spec_index(text@),
{
    let lines = split_lines(text);
    let ghost lv = lines.deep_view();
    let mut return_value: HashMap<u32, String> = HashMap::new();
    let mut start: bool = false;
    let mut in_title: bool = false;
    let mut idx: u32 = 0;
    let mut title: String = String::new();
    let mut done: bool = false;
    let mut i: usize = 0;
    proof {
        assert(view_of_map(return_value@) =~= Map::<u32, Seq<char>>::empty());
    }
    while i < lines.len() && !done
        invariant
            lv == lines.deep_view(),
            lv.len() == lines@.len(),
            i <= lv.len(),
            index_fold(lv, i as int) == (
                start,
                in_title,
                idx,
                title@,
                view_of_map(return_value@),
                done,
            ),
        decreases lv.len() - i,
    {
        assert(lv[i as int] == lines@[i as int]@);
        let line: &str = lines[i].as_str();
        let ghost pre = index_fold(lv, i as int);
        if contains_title_marker(line) {
            start = true;
        } else if starts_with_str(line, "<==End of ") {
            done = true;
        } else if start {
            if !in_title {
                let parsed = parse_line(line);
                idx = parsed.0;
                title = parsed.1;
                in_title = true;
            } else {
                if line.is_empty() {
                    return_value.insert(idx, title);
                    title = String::new();
                    in_title = false;
                    proof {
                        assert(view_of_map(return_value@) =~= pre.4.insert(idx, pre.3));
                    }
                } else {
                    title.append("\n");
                    title.append(trim_str(line));
                    proof {
                        reveal_strlit("\n");
                        assert("\n"@ =~= seq!['\n']);
                        assert(title@ == pre.3 + seq!['\n'] + trim_spec(lv[i as int]));
                    }
                }
            }
        }
        i += 1;
        proof {
            assert(index_fold(lv, i as int) == index_step(pre, lv[i as int - 1]));
        }
    }
    proof {
        if done {
            lemma_fold_frozen(lv, i as int, lv.len() as int);
        }
    }
    let ghost st = index_fold(lv, lv.len() as int);
    if !title.as_str().is_empty() {
        return_value.insert(idx, title);
        proof {
            assert(view_of_map(return_value@) =~= st.4.insert(st.2, st.3));
        }
    }
    return_value
}

} // verus!
