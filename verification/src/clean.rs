//! The text cleaner: strips boilerplate headers, footers and legalese
//! sections from a downloaded book text, by line-prefix markers.
//!
//! The marker sets are passed in by the caller; the cleaner itself only
//! applies them.  A header marker within the first six hundred kept
//! lines restarts the output; a footer marker after the first hundred
//! kept lines ends it; legalese markers toggle a skipped section.

use vstd::prelude::*;
use vstd::string::*;
use crate::strutil::has_prefix;
use crate::index::{spec_lines, split_lines};

verus! {

/// Some marker of the set is a prefix of the line.
pub open spec fn any_prefix(markers: Seq<Seq<char>>, line: Seq<char>) -> bool {
    exists|j: int| 0 <= j < markers.len() && has_prefix(line, markers[j])
}

/// Whether the line starts with any marker of the set.
pub fn lines_starts_with(line: &str, mapping: &Vec<String>) -> (r: bool)
    ensures
        r == any_prefix(mapping.deep_view(), line@),
{
    let ghost ms = mapping.deep_view();
    let mut j: usize = 0;
    while j < mapping.len()
        invariant
            ms == mapping.deep_view(),
            ms.len() == mapping@.len(),
            j <= mapping@.len(),
            forall|q: int| 0 <= q < j ==> !has_prefix(line@, ms[q]),
        decreases mapping@.len() - j,
    {
        assert(ms[j as int] == mapping@[j as int]@);
        if crate::strutil::starts_with_str(line, mapping[j].as_str()) {
            return true;
        }
        j += 1;
    }
    false
}

/// The kept-line counter saturates here; both threshold tests lie far
/// below, so behaviour past the cap does not depend on the exact count.
pub open spec fn count_cap() -> int {
    1000
}

/// One line applied to the cleaner state: the lines kept so far, the
/// in-legalese flag, the saturating count of kept lines, and whether
/// the footer ended the text.
pub open spec fn clean_step(
    st: (Seq<Seq<char>>, bool, int, bool),
    line: Seq<char>,
    starts: Seq<Seq<char>>,
    ends: Seq<Seq<char>>,
    lstarts: Seq<Seq<char>>,
    lends: Seq<Seq<char>>,
) -> (Seq<Seq<char>>, bool, int, bool) {
    if st.3 {
        st
    } else if st.2 <= 600 && any_prefix(starts, line) {
        (Seq::<Seq<char>>::empty(), st.1, st.2, false)
    } else if st.2 >= 100 && any_prefix(ends, line) {
        (st.0, st.1, st.2, true)
    } else if any_prefix(lstarts, line) {
        (st.0, true, st.2, false)
    } else if any_prefix(lends, line) {
        (st.0, false, st.2, false)
    } else if !st.1 {
        (
            st.0.push(line),
            st.1,
            if st.2 < count_cap() {
                st.2 + 1
            } else {
                st.2
            },
            false,
        )
    } else {
        st
    }
}

/// The cleaner state after the first `i` lines.
pub open spec fn clean_fold(
    lines: Seq<Seq<char>>,
    i: int,
    starts: Seq<Seq<char>>,
    ends: Seq<Seq<char>>,
    lstarts: Seq<Seq<char>>,
    lends: Seq<Seq<char>>,
) -> (Seq<Seq<char>>, bool, int, bool)
    decreases i,
{
    if i <= 0 {
        (Seq::<Seq<char>>::empty(), false, 0int, false)
    } else {
        clean_step(
            clean_fold(lines, i - 1, starts, ends, lstarts, lends),
            lines[i - 1],
            starts,
            ends,
            lstarts,
            lends,
        )
    }
}

/// The first `i` lines joined with single newlines.
pub open spec fn join_nl(ls: Seq<Seq<char>>, i: int) -> Seq<char>
    decreases i,
{
    if i <= 0 {
        Seq::<char>::empty()
    } else if i == 1 {
        ls[0]
    } else {
        join_nl(ls, i - 1) + seq!['\n'] + ls[i - 1]
    }
}

/// The cleaned text: the kept lines of the fold, joined by newlines.
pub open spec fn spec_strip_headers(
    text: Seq<char>,
    starts: Seq<Seq<char>>,
    ends: Seq<Seq<char>>,
    lstarts: Seq<Seq<char>>,
    lends: Seq<Seq<char>>,
) -> Seq<char> {
    let lines = spec_lines(text);
    let st = clean_fold(lines, lines.len() as int, starts, ends, lstarts, lends);
    join_nl(st.0, st.0.len() as int)
}

proof fn lemma_clean_fold_frozen(
    lines: Seq<Seq<char>>,
    i: int,
    j: int,
    starts: Seq<Seq<char>>,
    ends: Seq<Seq<char>>,
    lstarts: Seq<Seq<char>>,
    lends: Seq<Seq<char>>,
)
    requires
        0 <= i <= j <= lines.len(),
        clean_fold(lines, i, starts, ends, lstarts, lends).3,
    ensures
        clean_fold(lines, j, starts, ends, lstarts, lends) == clean_fold(
            lines,
            i,
            starts,
            ends,
            lstarts,
            lends,
        ),
    decreases j - i,
{
    if j > i {
        lemma_clean_fold_frozen(lines, i, j - 1, starts, ends, lstarts, lends);
    }
}

/// Strip headers, footers and legalese from a book text, by the four
/// marker sets.
pub fn strip_headers(
    text: String,
    start_markers: &Vec<String>,
    end_markers: &Vec<String>,
    legalese_start_markers: &Vec<String>,
    legalese_end_markers: &Vec<String>,
) -> (r: String)
    ensures
        r@ == spec_strip_headers(
            text@,
            start_markers.deep_view(),
            end_markers.deep_view(),
            legalese_start_markers.deep_view(),
            legalese_end_markers.deep_view(),
        ),
{
    let ghost sm = start_markers.deep_view();
    let ghost em = end_markers.deep_view();
    let ghost lsm = legalese_start_markers.deep_view();
    let ghost lem = legalese_end_markers.deep_view();
    let lines = split_lines(text.as_str());
    let ghost lv = lines.deep_view();
    let mut out: Vec<String> = Vec::new();
    let mut ignore_section: bool = false;
    let mut cnt: u64 = 0;
    let mut done: bool = false;
    let mut i: usize = 0;
    proof {
        assert(out.deep_view() =~= Seq::<Seq<char>>::empty());
    }
    while i < lines.len() && !done
        invariant
            sm == start_markers.deep_view(),
            em == end_markers.deep_view(),
            lsm == legalese_start_markers.deep_view(),
            lem == legalese_end_markers.deep_view(),
            lv == lines.deep_view(),
            lv.len() == lines@.len(),
            i <= lv.len(),
            cnt <= count_cap(),
            clean_fold(lv, i as int, sm, em, lsm, lem) == (
                out.deep_view(),
                ignore_section,
                cnt as int,
                done,
            ),
        decreases lv.len() - i,
    {
        assert(lv[i as int] == lines@[i as int]@);
        let line: &str = lines[i].as_str();
        let ghost pre = clean_fold(lv, i as int, sm, em, lsm, lem);
        if cnt <= 600 && lines_starts_with(line, start_markers) {
            out = Vec::new();
            proof {
                assert(out.deep_view() =~= Seq::<Seq<char>>::empty());
            }
        } else if cnt >= 100 && lines_starts_with(line, end_markers) {
            done = true;
        } else if lines_starts_with(line, legalese_start_markers) {
            ignore_section = true;
        } else if lines_starts_with(line, legalese_end_markers) {
            ignore_section = false;
        } else if !ignore_section {
            let ghost prev = out.deep_view();
            out.push(lines[i].clone());
            if cnt < 1000 {
                cnt += 1;
            }
            proof {
                assert(out.deep_view() =~= prev.push(lv[i as int]));
            }
        }
        i += 1;
        proof {
            assert(clean_fold(lv, i as int, sm, em, lsm, lem) == clean_step(
                pre,
                lv[i as int - 1],
                sm,
                em,
                lsm,
                lem,
            ));
        }
    }
    proof {
        if done {
            lemma_clean_fold_frozen(lv, i as int, lv.len() as int, sm, em, lsm, lem);
        }
    }
    let ghost ov = out.deep_view();
    let mut r = String::new();
    let mut k: usize = 0;
    while k < out.len()
        invariant
            ov == out.deep_view(),
            ov.len() == out@.len(),
            k <= ov.len(),
            r@ == join_nl(ov, k as int),
        decreases ov.len() - k,
    {
        assert(ov[k as int] == out@[k as int]@);
        if k > 0 {
            r.append("\n");
            proof {
                reveal_strlit("\n");
                assert("\n"@ =~= seq!['\n']);
            }
        }
        r.append(out[k].as_str());
        proof {
            if k == 0 {
                assert(Seq::<char>::empty() + ov[0] =~= ov[0]);
            }
        }
        k += 1;
    }
    r
}

} // verus!
